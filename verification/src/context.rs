//! Per-core execution state: the region-scoped SSA value stack, the LX
//! byte accounting with watermark rewinding, and the grid position.

use vstd::prelude::*;
use crate::ir::Value;
use crate::keyed::{key_at, has_key, keys_unique, entries_map, lemma_index_of, lemma_update_value, lemma_push_fresh, lemma_remove_at, lemma_empty, find_key};
use crate::memory::{SpyreMemoryHierarchy, LXScratchpad};
use crate::text::{str_to_chars, nat_decimal, int_decimal};

verus! {

/// An SSA name without its leading `%` sigils.
pub open spec fn normalize(s: Seq<char>) -> Seq<char>
    decreases s.len(),
{
    if s.len() > 0 && s[0] == '%' {
        normalize(s.drop_first())
    } else {
        s
    }
}

/// Innermost binding of `key`, searching scopes from the top of the stack.
pub open spec fn stack_lookup(scopes: Seq<Map<Seq<char>, Value>>, key: Seq<char>) -> Option<Value>
    decreases scopes.len(),
{
    if scopes.len() == 0 {
        None
    } else if scopes.last().contains_key(key) {
        Some(scopes.last()[key])
    } else {
        stack_lookup(scopes.drop_last(), key)
    }
}

/// Total bytes recorded in an LX size table.
pub open spec fn sum_sizes(e: Seq<(Vec<char>, i64)>) -> int
    decreases e.len(),
{
    if e.len() == 0 {
        0
    } else {
        sum_sizes(e.drop_last()) + e.last().1
    }
}

/// Every recorded size is nonnegative.
pub open spec fn sizes_nonneg(e: Seq<(Vec<char>, i64)>) -> bool {
    forall|i: int| 0 <= i < e.len() ==> 0 <= #[trigger] e[i].1
}

proof fn lemma_sum_nonneg(e: Seq<(Vec<char>, i64)>)
    requires
        sizes_nonneg(e),
    ensures
        0 <= sum_sizes(e),
        forall|i: int| 0 <= i < e.len() ==> e[i].1 <= sum_sizes(e),
    decreases e.len(),
{
    if e.len() > 0 {
        let p = e.drop_last();
        assert forall|i: int| 0 <= i < p.len() implies 0 <= #[trigger] p[i].1 by {
            assert(p[i] == e[i]);
        }
        lemma_sum_nonneg(p);
        assert forall|i: int| 0 <= i < e.len() implies e[i].1 <= sum_sizes(e) by {
            if i < p.len() {
                assert(p[i] == e[i]);
            }
        }
    }
}

proof fn lemma_sum_push(e: Seq<(Vec<char>, i64)>, x: (Vec<char>, i64))
    ensures
        sum_sizes(e.push(x)) == sum_sizes(e) + x.1,
{
    assert(e.push(x).drop_last() =~= e);
}

proof fn lemma_sum_update(e: Seq<(Vec<char>, i64)>, j: int, x: (Vec<char>, i64))
    requires
        0 <= j < e.len(),
    ensures
        sum_sizes(e.update(j, x)) == sum_sizes(e) - e[j].1 + x.1,
    decreases e.len(),
{
    let u = e.update(j, x);
    if j == e.len() - 1 {
        assert(u.drop_last() =~= e.drop_last());
    } else {
        lemma_sum_update(e.drop_last(), j, x);
        assert(u.drop_last() =~= e.drop_last().update(j, x));
    }
}

proof fn lemma_sum_remove(e: Seq<(Vec<char>, i64)>, j: int)
    requires
        0 <= j < e.len(),
    ensures
        sum_sizes(e.remove(j)) == sum_sizes(e) - e[j].1,
    decreases e.len(),
{
    let r = e.remove(j);
    if j == e.len() - 1 {
        assert(r =~= e.drop_last());
    } else {
        lemma_sum_remove(e.drop_last(), j);
        assert(r.drop_last() =~= e.drop_last().remove(j));
    }
}

/// Two size tables with unique keys that record the same sizes hold the
/// same total, whatever the order of their entries.
proof fn lemma_sum_same_map(e1: Seq<(Vec<char>, i64)>, e2: Seq<(Vec<char>, i64)>)
    requires
        keys_unique(e1),
        keys_unique(e2),
        entries_map(e1) == entries_map(e2),
    ensures
        sum_sizes(e1) == sum_sizes(e2),
    decreases e1.len(),
{
    if e1.len() == 0 {
        if e2.len() > 0 {
            lemma_index_of(e2, 0);
            assert(entries_map(e1).contains_key(key_at(e2, 0)));
        }
    } else {
        let last = e1.len() - 1;
        let k = key_at(e1, last);
        lemma_index_of(e1, last);
        assert(entries_map(e2).contains_key(k));
        assert(has_key(e2, k));
        let j = choose|j: int| 0 <= j < e2.len() && #[trigger] key_at(e2, j) == k;
        lemma_index_of(e2, j);
        lemma_remove_at(e2, j);
        lemma_remove_at(e1, last);
        assert(e1.remove(last) =~= e1.drop_last());
        lemma_sum_same_map(e1.drop_last(), e2.remove(j));
        lemma_sum_remove(e2, j);
    }
}

/// The message of a refused LX reservation: the core, the bytes in use,
/// the bytes asked for and the capacity.
pub open spec fn lx_overflow_text(core: int, used: int, size: int, capacity: int) -> Seq<char> {
    "LX capacity exceeded on core "@ + nat_decimal(core as nat) + ": "@ + int_decimal(used)
        + " + "@ + int_decimal(size) + " > "@ + int_decimal(capacity)
}

/// The characters of `name` without its leading `%` sigils.
pub fn normalize_name(name: &str) -> (k: Vec<char>)
    ensures
        k@ == normalize(name@),
{
    let s = str_to_chars(name);
    assert(s@.subrange(0, s@.len() as int) =~= s@);
    let mut i: usize = 0;
    while i < s.len() && s[i] == '%'
        invariant
            0 <= i <= s@.len(),
            s@ == name@,
            normalize(s@) == normalize(s@.subrange(i as int, s@.len() as int)),
        decreases s@.len() - i,
    {
        assert(s@.subrange(i as int, s@.len() as int).drop_first() =~= s@.subrange(
            i + 1,
            s@.len() as int,
        ));
        i = i + 1;
    }
    let mut k: Vec<char> = Vec::new();
    let mut j: usize = i;
    while j < s.len()
        invariant
            i <= j <= s@.len(),
            k@ == s@.subrange(i as int, j as int),
        decreases s@.len() - j,
    {
        k.push(s[j]);
        j = j + 1;
    }
    k
}

/// Per-core execution context.
pub struct CoreContext {
    pub core_id: usize,
    /// (x, y, z) position in the grid.
    pub grid_pos: (usize, usize, usize),
    /// The memory hierarchy; this core's LX is `lx_scratchpads[core_id]`.
    pub mem: SpyreMemoryHierarchy,
    /// Region-scoped SSA bindings; index 0 is the function body.
    pub scope_stack: Vec<Vec<(Vec<char>, Value)>>,
    /// SSA name -> bytes it occupies in LX.
    pub lx_bytes: Vec<(Vec<char>, i64)>,
    /// LX bump-pointer watermarks, one per scope above the function body.
    pub lx_next_ptr_stack: Vec<i64>,
}

impl CoreContext {
    /// The bindings of each scope, innermost last.
    pub open spec fn scopes(&self) -> Seq<Map<Seq<char>, Value>> {
        Seq::new(self.scope_stack@.len(), |i: int| entries_map(self.scope_stack@[i]@))
    }

    /// Bytes of LX recorded per SSA name.
    pub open spec fn lx_sizes(&self) -> Map<Seq<char>, i64> {
        entries_map(self.lx_bytes@)
    }

    /// This core's scratchpad.
    pub open spec fn local_lx(&self) -> LXScratchpad {
        self.mem.lx_scratchpads@[self.core_id as int]
    }

    /// Innermost binding of SSA name `name`.
    pub open spec fn lookup(&self, name: Seq<char>) -> Option<Value> {
        stack_lookup(self.scopes(), normalize(name))
    }

    /// Structural invariant kept by every method.
    pub open spec fn wf(&self) -> bool {
        &&& self.core_id < self.mem.lx_scratchpads@.len()
        &&& self.scope_stack@.len() >= 1
        &&& self.lx_next_ptr_stack@.len() + 1 == self.scope_stack@.len()
        &&& forall|i: int|
            0 <= i < self.scope_stack@.len() ==> keys_unique(#[trigger] self.scope_stack@[i]@)
        &&& keys_unique(self.lx_bytes@)
        &&& sizes_nonneg(self.lx_bytes@)
        &&& sum_sizes(self.lx_bytes@) <= self.local_lx().used <= self.local_lx().capacity
    }

    /// Everything but the SSA scopes is unchanged.
    pub open spec fn same_but_scopes(&self, other: &CoreContext) -> bool {
        &&& self.core_id == other.core_id
        &&& self.grid_pos == other.grid_pos
        &&& self.mem == other.mem
        &&& self.lx_bytes == other.lx_bytes
        &&& self.lx_next_ptr_stack == other.lx_next_ptr_stack
    }

    /// A fresh context for `core_id` at `grid_pos`: one empty scope, no LX
    /// bookkeeping.
    pub fn new(core_id: usize, grid_pos: (usize, usize, usize), mem: SpyreMemoryHierarchy) -> (c:
        CoreContext)
        requires
            core_id < mem.lx_scratchpads@.len(),
            0 <= mem.lx_scratchpads@[core_id as int].used <= mem.lx_scratchpads@[core_id as int].capacity,
        ensures
            c.wf(),
            c.core_id == core_id,
            c.grid_pos == grid_pos,
            c.mem == mem,
            c.scopes() == seq![Map::<Seq<char>, Value>::empty()],
            c.lx_sizes() == Map::<Seq<char>, i64>::empty(),
            c.lx_next_ptr_stack@.len() == 0,
    {
        let mut scope_stack: Vec<Vec<(Vec<char>, Value)>> = Vec::new();
        scope_stack.push(Vec::new());
        let c = CoreContext {
            core_id,
            grid_pos,
            mem,
            scope_stack,
            lx_bytes: Vec::new(),
            lx_next_ptr_stack: Vec::new(),
        };
        proof {
            lemma_empty(c.scope_stack@[0]@);
            lemma_empty(c.lx_bytes@);
            assert(c.scopes() =~= seq![Map::<Seq<char>, Value>::empty()]);
        }
        c
    }

    /// Grid coordinate for a dimension (0 = x, 1 = y, 2 = z; others 0).
    pub fn get_grid_id(&self, dim: usize) -> (g: usize)
        ensures
            g == (if dim == 0 {
                self.grid_pos.0
            } else if dim == 1 {
                self.grid_pos.1
            } else if dim == 2 {
                self.grid_pos.2
            } else {
                0
            }),
    {
        match dim {
            0 => self.grid_pos.0,
            1 => self.grid_pos.1,
            2 => self.grid_pos.2,
            _ => 0,
        }
    }

    /// Bind `value` to `name` in the innermost scope, replacing a binding of
    /// the same name there.
    pub fn set_value(&mut self, name: &str, value: Value)
        requires
            old(self).wf(),
        ensures
            final(self).wf(),
            final(self).scopes() == old(self).scopes().update(
                old(self).scopes().len() - 1,
                old(self).scopes().last().insert(normalize(name@), value),
            ),
            final(self).same_but_scopes(&*old(self)),
    {
        let key = normalize_name(name);
        let top = self.scope_stack.len() - 1;
        let ghost old_stack = self.scope_stack@;
        let mut scope = Vec::new();
        std::mem::swap(&mut scope, &mut self.scope_stack[top]);
        let ghost old_scope = scope@;
        assert(old_scope == old_stack[top as int]@);
        match find_key(&scope, &key) {
            Some(i) => {
                proof {
                    lemma_update_value(old_scope, i as int, (key, value));
                }
                scope.set(i, (key, value));
            },
            None => {
                proof {
                    lemma_push_fresh(old_scope, (key, value));
                }
                scope.push((key, value));
            },
        }
        let ghost new_scope = scope@;
        self.scope_stack.set(top, scope);
        proof {
            assert(self.scope_stack@ == old_stack.update(top as int, self.scope_stack@[top as int]));
            assert forall|i: int| 0 <= i < self.scope_stack@.len() implies keys_unique(
                #[trigger] self.scope_stack@[i]@,
            ) by {
                if i != top {
                    assert(self.scope_stack@[i] == old_stack[i]);
                }
            }
            assert(self.scopes() =~= old(self).scopes().update(
                old(self).scopes().len() - 1,
                old(self).scopes().last().insert(normalize(name@), value),
            ));
        }
    }

    /// The innermost binding of `name`.
    pub fn get_value(&self, name: &str) -> (r: Result<&Value, String>)
        requires
            self.wf(),
        ensures
            r matches Ok(v) ==> self.lookup(name@) == Some(*v),
            r is Err <==> self.lookup(name@) is None,
            r matches Err(m) ==> m@ == "undefined SSA value: "@ + name@,
    {
        let key = normalize_name(name);
        let mut s = self.scope_stack.len();
        assert(self.scopes().subrange(0, s as int) =~= self.scopes());
        while s > 0
            invariant
                0 <= s <= self.scope_stack@.len(),
                self.wf(),
                key@ == normalize(name@),
                stack_lookup(self.scopes(), key@) == stack_lookup(self.scopes().subrange(0, s as int), key@),
            decreases s,
        {
            let scope = &self.scope_stack[s - 1];
            let ghost sub = self.scopes().subrange(0, s as int);
            assert(sub.last() == entries_map(scope@));
            assert(sub.drop_last() =~= self.scopes().subrange(0, s - 1));
            match find_key(scope, &key) {
                Some(i) => {
                    proof {
                        assert(keys_unique(self.scope_stack@[s - 1]@));
                        lemma_index_of(scope@, i as int);
                    }
                    return Ok(&scope[i].1);
                },
                None => {
                    assert(!entries_map(scope@).contains_key(key@));
                },
            }
            s = s - 1;
        }
        let mut msg = String::from_str("undefined SSA value: ");
        msg.append(name);
        proof {
            reveal_strlit("undefined SSA value: ");
        }
        Err(msg)
    }

    /// Whether `name` is bound in any scope.
    pub fn has_value(&self, name: &str) -> (b: bool)
        requires
            self.wf(),
        ensures
            b == self.lookup(name@) is Some,
    {
        match self.get_value(name) {
            Ok(_) => true,
            Err(_) => false,
        }
    }

    /// Enter a region: remember the LX bump pointer and open an empty scope.
    pub fn push_scope(&mut self)
        requires
            old(self).wf(),
        ensures
            final(self).wf(),
            final(self).scopes() == old(self).scopes().push(Map::<Seq<char>, Value>::empty()),
            final(self).lx_next_ptr_stack@ == old(self).lx_next_ptr_stack@.push(
                old(self).local_lx().next_ptr,
            ),
            final(self).core_id == old(self).core_id,
            final(self).grid_pos == old(self).grid_pos,
            final(self).mem == old(self).mem,
            final(self).lx_bytes == old(self).lx_bytes,
    {
        let np = self.mem.lx_scratchpads[self.core_id].next_ptr;
        self.lx_next_ptr_stack.push(np);
        self.scope_stack.push(Vec::new());
        proof {
            lemma_empty(self.scope_stack@.last()@);
            assert forall|i: int| 0 <= i < self.scope_stack@.len() implies keys_unique(
                #[trigger] self.scope_stack@[i]@,
            ) by {
                if i < old(self).scope_stack@.len() {
                    assert(self.scope_stack@[i] == old(self).scope_stack@[i]);
                }
            }
            assert(self.scopes() =~= old(self).scopes().push(Map::<Seq<char>, Value>::empty()));
        }
    }

    /// Stop recording LX bytes for `key`, releasing them from `used`.
    fn untrack_key(&mut self, key: &Vec<char>)
        requires
            old(self).wf(),
        ensures
            final(self).wf(),
            final(self).lx_sizes() == old(self).lx_sizes().remove(key@),
            final(self).local_lx().used == old(self).local_lx().used - (if old(
                self,
            ).lx_sizes().contains_key(key@) {
                old(self).lx_sizes()[key@] as int
            } else {
                0
            }),
            sum_sizes(final(self).lx_bytes@) == sum_sizes(old(self).lx_bytes@) - (if old(
                self,
            ).lx_sizes().contains_key(key@) {
                old(self).lx_sizes()[key@] as int
            } else {
                0
            }),
            final(self).scope_stack == old(self).scope_stack,
            final(self).lx_next_ptr_stack == old(self).lx_next_ptr_stack,
            final(self).core_id == old(self).core_id,
            final(self).grid_pos == old(self).grid_pos,
            final(self).mem.lx_scratchpads@.len() == old(self).mem.lx_scratchpads@.len(),
            final(self).mem.hbm == old(self).mem.hbm,
            final(self).mem.num_cores == old(self).mem.num_cores,
            forall|c: int|
                0 <= c < old(self).mem.lx_scratchpads@.len() && c != old(self).core_id
                    ==> final(self).mem.lx_scratchpads@[c] == old(self).mem.lx_scratchpads@[c],
            final(self).local_lx().capacity == old(self).local_lx().capacity,
            final(self).local_lx().next_ptr == old(self).local_lx().next_ptr,
            final(self).local_lx().core_id == old(self).local_lx().core_id,
            final(self).local_lx().store == old(self).local_lx().store,
    {
        match find_key(&self.lx_bytes, key) {
            Some(i) => {
                let sz = self.lx_bytes[i].1;
                proof {
                    lemma_index_of(self.lx_bytes@, i as int);
                    lemma_remove_at(self.lx_bytes@, i as int);
                    lemma_sum_remove(self.lx_bytes@, i as int);
                    lemma_sum_nonneg(self.lx_bytes@);
                    let r = self.lx_bytes@.remove(i as int);
                    assert forall|j: int| 0 <= j < r.len() implies 0 <= #[trigger] r[j].1 by {
                        if j < i {
                            assert(r[j] == self.lx_bytes@[j]);
                        } else {
                            assert(r[j] == self.lx_bytes@[j + 1]);
                        }
                    }
                }
                self.lx_bytes.remove(i);
                let cid = self.core_id;
                let lx = self.mem.get_lx_mut(cid);
                lx.used = lx.used - sz;
            },
            None => {
                assert(old(self).lx_sizes().remove(key@) =~= old(self).lx_sizes());
            },
        }
    }

    /// Exit the current region: release the LX of every value bound in it,
    /// drop its bindings, and rewind the LX bump pointer to the watermark
    /// taken when it was entered.
    pub fn pop_scope(&mut self)
        requires
            old(self).wf(),
            old(self).scope_stack@.len() > 1,
        ensures
            final(self).wf(),
            final(self).scopes() == old(self).scopes().drop_last(),
            final(self).lx_next_ptr_stack@ == old(self).lx_next_ptr_stack@.drop_last(),
            final(self).local_lx().next_ptr == old(self).lx_next_ptr_stack@.last(),
            final(self).lx_sizes() == old(self).lx_sizes().remove_keys(
                old(self).scopes().last().dom(),
            ),
            final(self).local_lx().used - sum_sizes(final(self).lx_bytes@) == old(
                self,
            ).local_lx().used - sum_sizes(old(self).lx_bytes@),
            final(self).local_lx().capacity == old(self).local_lx().capacity,
            final(self).core_id == old(self).core_id,
            final(self).grid_pos == old(self).grid_pos,
            final(self).mem.lx_scratchpads@.len() == old(self).mem.lx_scratchpads@.len(),
    {
        let watermark = self.lx_next_ptr_stack.pop().unwrap();
        let scope = self.scope_stack.pop().unwrap();
        let ghost popped = entries_map(scope@);
        assert(popped == old(self).scopes().last());
        assert(keys_unique(old(self).scope_stack@[old(self).scope_stack@.len() - 1]@));
        let mut i: usize = 0;
        while i < scope.len()
            invariant
                0 <= i <= scope@.len(),
                self.wf(),
                keys_unique(scope@),
                popped == entries_map(scope@),
                self.scope_stack@ == old(self).scope_stack@.drop_last(),
                self.lx_next_ptr_stack@ == old(self).lx_next_ptr_stack@.drop_last(),
                watermark == old(self).lx_next_ptr_stack@.last(),
                self.core_id == old(self).core_id,
                self.grid_pos == old(self).grid_pos,
                self.local_lx().capacity == old(self).local_lx().capacity,
                self.local_lx().next_ptr == old(self).local_lx().next_ptr,
                self.mem.lx_scratchpads@.len() == old(self).mem.lx_scratchpads@.len(),
                self.lx_sizes() == old(self).lx_sizes().remove_keys(
                    Set::new(|k: Seq<char>| exists|j: int| 0 <= j < i && #[trigger] key_at(scope@, j) == k),
                ),
                self.local_lx().used - sum_sizes(self.lx_bytes@) == old(self).local_lx().used
                    - sum_sizes(old(self).lx_bytes@),
            decreases scope@.len() - i,
        {
            let ghost before = self.lx_sizes();
            self.untrack_key(&scope[i].0);
            proof {
                let s1 = Set::new(|k: Seq<char>| exists|j: int| 0 <= j < i && #[trigger] key_at(scope@, j) == k);
                let s2 = Set::new(|k: Seq<char>| exists|j: int| 0 <= j < i + 1 && #[trigger] key_at(scope@, j) == k);
                assert(key_at(scope@, i as int) == scope@[i as int].0@);
                assert(s2 =~= s1.insert(key_at(scope@, i as int)));
                assert(self.lx_sizes() =~= old(self).lx_sizes().remove_keys(s2));
            }
            i = i + 1;
        }
        proof {
            let s1 = Set::new(|k: Seq<char>| exists|j: int| 0 <= j < scope@.len() && #[trigger] key_at(scope@, j) == k);
            assert forall|k: Seq<char>| s1.contains(k) <==> popped.dom().contains(k) by {
                if s1.contains(k) {
                    let j = choose|j: int| 0 <= j < scope@.len() && #[trigger] key_at(scope@, j) == k;
                    lemma_index_of(scope@, j);
                }
                if popped.dom().contains(k) {
                    assert(has_key(scope@, k));
                }
            }
            assert(s1 =~= popped.dom());
        }
        let cid = self.core_id;
        let lx = self.mem.get_lx_mut(cid);
        lx.next_ptr = watermark;
        proof {
            assert(self.scopes() =~= old(self).scopes().drop_last());
        }
    }

    /// Record that `name` occupies `size_bytes` of LX. Fails, changing
    /// nothing, when that would exceed the scratchpad's capacity.
    pub fn track_lx(&mut self, name: &str, size_bytes: i64) -> (r: Result<(), String>)
        requires
            old(self).wf(),
            0 <= size_bytes,
        ensures
            final(self).wf(),
            r is Err <==> old(self).local_lx().used + size_bytes > old(self).local_lx().capacity,
            r is Err ==> *final(self) == *old(self),
            r matches Err(m) ==> m@ == lx_overflow_text(
                old(self).core_id as int,
                old(self).local_lx().used as int,
                size_bytes as int,
                old(self).local_lx().capacity as int,
            ),
            r is Ok ==> {
                &&& final(self).local_lx().used == old(self).local_lx().used + size_bytes
                &&& final(self).lx_sizes() == old(self).lx_sizes().insert(normalize(name@), size_bytes)
                &&& final(self).local_lx().used - sum_sizes(final(self).lx_bytes@) == old(
                    self,
                ).local_lx().used - sum_sizes(old(self).lx_bytes@) + (if old(
                    self,
                ).lx_sizes().contains_key(normalize(name@)) {
                    old(self).lx_sizes()[normalize(name@)] as int
                } else {
                    0
                })
                &&& final(self).local_lx().capacity == old(self).local_lx().capacity
                &&& final(self).local_lx().next_ptr == old(self).local_lx().next_ptr
                &&& final(self).scope_stack == old(self).scope_stack
                &&& final(self).lx_next_ptr_stack == old(self).lx_next_ptr_stack
                &&& final(self).core_id == old(self).core_id
                &&& final(self).grid_pos == old(self).grid_pos
                &&& final(self).mem.lx_scratchpads@.len() == old(self).mem.lx_scratchpads@.len()
            },
    {
        let cid = self.core_id;
        let used = self.mem.lx_scratchpads[cid].used;
        let capacity = self.mem.lx_scratchpads[cid].capacity;
        let fits = match used.checked_add(size_bytes) {
            Some(total) => total <= capacity,
            None => false,
        };
        if !fits {
            let mut msg = String::from_str("LX capacity exceeded on core ");
            msg.append(&crate::text::usize_to_decimal(cid));
            msg.append(": ");
            msg.append(&crate::text::i64_to_decimal(used));
            msg.append(" + ");
            msg.append(&crate::text::i64_to_decimal(size_bytes));
            msg.append(" > ");
            msg.append(&crate::text::i64_to_decimal(capacity));
            proof {
                reveal_strlit("LX capacity exceeded on core ");
                reveal_strlit(": ");
                reveal_strlit(" + ");
                reveal_strlit(" > ");
            }
            return Err(msg);
        }
        let key = normalize_name(name);
        let lx = self.mem.get_lx_mut(cid);
        lx.used = used + size_bytes;
        match find_key(&self.lx_bytes, &key) {
            Some(i) => {
                proof {
                    lemma_index_of(self.lx_bytes@, i as int);
                    lemma_update_value(self.lx_bytes@, i as int, (key, size_bytes));
                    lemma_sum_update(self.lx_bytes@, i as int, (key, size_bytes));
                    lemma_sum_nonneg(self.lx_bytes@);
                    let u = self.lx_bytes@.update(i as int, (key, size_bytes));
                    assert forall|j: int| 0 <= j < u.len() implies 0 <= #[trigger] u[j].1 by {
                        if j != i {
                            assert(u[j] == self.lx_bytes@[j]);
                        }
                    }
                }
                self.lx_bytes.set(i, (key, size_bytes));
            },
            None => {
                proof {
                    lemma_push_fresh(self.lx_bytes@, (key, size_bytes));
                    lemma_sum_push(self.lx_bytes@, (key, size_bytes));
                    let u = self.lx_bytes@.push((key, size_bytes));
                    assert forall|j: int| 0 <= j < u.len() implies 0 <= #[trigger] u[j].1 by {
                        if j < self.lx_bytes@.len() {
                            assert(u[j] == self.lx_bytes@[j]);
                        }
                    }
                }
                self.lx_bytes.push((key, size_bytes));
            },
        }
        Ok(())
    }

    /// Release the LX recorded for `name`; nothing happens if it has none.
    pub fn untrack_lx(&mut self, name: &str)
        requires
            old(self).wf(),
        ensures
            final(self).wf(),
            final(self).lx_sizes() == old(self).lx_sizes().remove(normalize(name@)),
            final(self).local_lx().used == old(self).local_lx().used - (if old(
                self,
            ).lx_sizes().contains_key(normalize(name@)) {
                old(self).lx_sizes()[normalize(name@)] as int
            } else {
                0
            }),
            final(self).scope_stack == old(self).scope_stack,
            final(self).lx_next_ptr_stack == old(self).lx_next_ptr_stack,
            final(self).core_id == old(self).core_id,
            final(self).grid_pos == old(self).grid_pos,
            final(self).local_lx().capacity == old(self).local_lx().capacity,
            final(self).local_lx().next_ptr == old(self).local_lx().next_ptr,
            final(self).mem.lx_scratchpads@.len() == old(self).mem.lx_scratchpads@.len(),
    {
        let key = normalize_name(name);
        self.untrack_key(&key);
    }

    /// Drop every binding of `name` and release the LX recorded for it (a
    /// value that went dead).
    pub fn forget(&mut self, name: &str)
        requires
            old(self).wf(),
        ensures
            final(self).wf(),
            final(self).scopes() == old(self).scopes().map_values(
                |m: Map<Seq<char>, Value>| m.remove(normalize(name@)),
            ),
            final(self).lx_sizes() == old(self).lx_sizes().remove(normalize(name@)),
            final(self).lx_next_ptr_stack == old(self).lx_next_ptr_stack,
            final(self).core_id == old(self).core_id,
            final(self).grid_pos == old(self).grid_pos,
            final(self).mem.lx_scratchpads@.len() == old(self).mem.lx_scratchpads@.len(),
    {
        let key = normalize_name(name);
        self.untrack_key(&key);
        let ghost mid = self.scopes();
        let n = self.scope_stack.len();
        let mut s: usize = 0;
        while s < n
            invariant
                0 <= s <= n,
                n == self.scope_stack@.len(),
                self.wf(),
                self.lx_sizes() == old(self).lx_sizes().remove(key@),
                self.lx_next_ptr_stack == old(self).lx_next_ptr_stack,
                self.core_id == old(self).core_id,
                self.grid_pos == old(self).grid_pos,
                self.mem.lx_scratchpads@.len() == old(self).mem.lx_scratchpads@.len(),
                mid == old(self).scopes(),
                key@ == normalize(name@),
                forall|i: int| 0 <= i < s ==> #[trigger] self.scopes()[i] == mid[i].remove(key@),
                forall|i: int| s <= i < n ==> #[trigger] self.scopes()[i] == mid[i],
            decreases n - s,
        {
            let ghost stack0 = self.scope_stack@;
            let ghost scopes0 = self.scopes();
            let mut scope = Vec::new();
            std::mem::swap(&mut scope, &mut self.scope_stack[s]);
            let ghost before = scope@;
            assert(before == stack0[s as int]@);
            assert(keys_unique(before));
            assert(entries_map(before) == mid[s as int]) by {
                assert(scopes0[s as int] == mid[s as int]);
            }
            match find_key(&scope, &key) {
                Some(j) => {
                    proof {
                        lemma_remove_at(scope@, j as int);
                    }
                    scope.remove(j);
                },
                None => {
                    assert(entries_map(scope@).remove(key@) =~= entries_map(scope@));
                },
            }
            let ghost after = scope@;
            self.scope_stack.set(s, scope);
            proof {
                assert(self.scope_stack@ =~= stack0.update(s as int, self.scope_stack@[s as int]));
                assert(self.scope_stack@[s as int]@ == after);
                assert forall|i: int| 0 <= i < n && i != s implies #[trigger] self.scopes()[i] == scopes0[i] by {
                    assert(self.scope_stack@[i] == stack0[i]);
                }
                assert(self.scopes()[s as int] == mid[s as int].remove(key@));
                assert forall|i: int| 0 <= i < self.scope_stack@.len() implies keys_unique(
                    #[trigger] self.scope_stack@[i]@,
                ) by {
                    if i != s {
                        assert(self.scope_stack@[i] == stack0[i]);
                    }
                }
            }
            s = s + 1;
        }
        assert(self.scopes() =~= mid.map_values(|m: Map<Seq<char>, Value>| m.remove(key@)));
    }

    /// The LX of core `core_id`, or of this core when `None`.
    pub fn get_lx(&self, core_id: Option<usize>) -> (lx: &LXScratchpad)
        requires
            self.wf(),
            core_id matches Some(id) ==> id < self.mem.lx_scratchpads@.len(),
        ensures
            *lx == match core_id {
                Some(id) => self.mem.lx_scratchpads@[id as int],
                None => self.local_lx(),
            },
    {
        match core_id {
            Some(id) => &self.mem.lx_scratchpads[id],
            None => &self.mem.lx_scratchpads[self.core_id],
        }
    }

    /// Reset for the next execution round: a single empty scope, no LX
    /// bookkeeping, and this core's LX cleared.
    pub fn clear_values(&mut self)
        requires
            old(self).wf(),
        ensures
            final(self).wf(),
            final(self).scopes() == seq![Map::<Seq<char>, Value>::empty()],
            final(self).lx_sizes() == Map::<Seq<char>, i64>::empty(),
            final(self).lx_next_ptr_stack@.len() == 0,
            final(self).local_lx().used == 0,
            final(self).local_lx().next_ptr == 0,
            final(self).local_lx().capacity == old(self).local_lx().capacity,
            final(self).local_lx().allocations() == Seq::<(i64, Seq<u8>)>::empty(),
            final(self).core_id == old(self).core_id,
            final(self).grid_pos == old(self).grid_pos,
            final(self).mem.hbm == old(self).mem.hbm,
            final(self).mem.num_cores == old(self).mem.num_cores,
            final(self).mem.lx_scratchpads@.len() == old(self).mem.lx_scratchpads@.len(),
            forall|c: int|
                0 <= c < old(self).mem.lx_scratchpads@.len() && c != old(self).core_id
                    ==> final(self).mem.lx_scratchpads@[c] == old(self).mem.lx_scratchpads@[c],
    {
        proof {
            lemma_sum_nonneg(self.lx_bytes@);
        }
        let mut scope_stack: Vec<Vec<(Vec<char>, Value)>> = Vec::new();
        scope_stack.push(Vec::new());
        self.scope_stack = scope_stack;
        self.lx_bytes = Vec::new();
        self.lx_next_ptr_stack = Vec::new();
        let cid = self.core_id;
        let lx = self.mem.get_lx_mut(cid);
        lx.clear();
        proof {
            lemma_empty(self.scope_stack@[0]@);
            lemma_empty(self.lx_bytes@);
            assert(self.scopes() =~= seq![Map::<Seq<char>, Value>::empty()]);
        }
    }
}


/// Reading a name right after binding it in the innermost scope gives the
/// value bound, whatever outer scopes hold.
pub proof fn lemma_set_then_get(before: CoreContext, after: CoreContext, name: Seq<char>, v: Value)
    requires
        before.wf(),
        after.scopes() == before.scopes().update(
            before.scopes().len() - 1,
            before.scopes().last().insert(normalize(name), v),
        ),
    ensures
        after.lookup(name) == Some(v),
{
    assert(after.scopes().len() == before.scopes().len());
    assert(after.scopes().last() == before.scopes().last().insert(normalize(name), v));
}

/// Entering a region, binding and tracking values in it, and leaving it
/// again restores the bindings visible before and rewinds the LX bump
/// pointer to where it stood on entry; the LX recorded for names bound in
/// the region is released.
pub proof fn lemma_push_then_pop(c0: CoreContext, c1: CoreContext, c1b: CoreContext, c2: CoreContext, name: Seq<char>)
    requires
        c0.wf(),
        c1.scopes() == c0.scopes().push(Map::<Seq<char>, Value>::empty()),
        c1.lx_next_ptr_stack@ == c0.lx_next_ptr_stack@.push(c0.local_lx().next_ptr),
        c1b.scopes().len() == c1.scopes().len(),
        c1b.scopes().drop_last() == c1.scopes().drop_last(),
        c1b.lx_next_ptr_stack@ == c1.lx_next_ptr_stack@,
        c2.scopes() == c1b.scopes().drop_last(),
        c2.lx_next_ptr_stack@ == c1b.lx_next_ptr_stack@.drop_last(),
        c2.local_lx().next_ptr == c1b.lx_next_ptr_stack@.last(),
        c2.lx_sizes() == c1b.lx_sizes().remove_keys(c1b.scopes().last().dom()),
    ensures
        c2.scopes() == c0.scopes(),
        c2.lookup(name) == c0.lookup(name),
        c2.lx_next_ptr_stack@ == c0.lx_next_ptr_stack@,
        c2.local_lx().next_ptr == c0.local_lx().next_ptr,
        c1b.scopes().last().contains_key(normalize(name)) ==> !c2.lx_sizes().contains_key(normalize(name)),
{
    assert(c1.scopes().drop_last() =~= c0.scopes());
    assert(c2.scopes() =~= c0.scopes());
    assert(c2.lx_next_ptr_stack@ =~= c0.lx_next_ptr_stack@);
}

/// A region that binds one fresh name and reserves LX for it leaves, once
/// it is closed, the context as it found it: the same bindings, the LX bump
/// pointer rewound to its watermark, the same LX size table and the same
/// number of LX bytes in use. The steps are those of entering the region,
/// binding the name, reserving its LX and leaving the region.
pub proof fn lemma_region_rewinds_lx(
    c0: CoreContext,
    c1: CoreContext,
    c2: CoreContext,
    c3: CoreContext,
    c4: CoreContext,
    name: Seq<char>,
    v: Value,
    size: i64,
)
    requires
        c0.wf(),
        !c0.lx_sizes().contains_key(normalize(name)),
        // entering the region
        c1.scopes() == c0.scopes().push(Map::<Seq<char>, Value>::empty()),
        c1.lx_next_ptr_stack@ == c0.lx_next_ptr_stack@.push(c0.local_lx().next_ptr),
        c1.core_id == c0.core_id,
        c1.mem == c0.mem,
        c1.lx_bytes == c0.lx_bytes,
        // binding the name
        c2.scopes() == c1.scopes().update(
            c1.scopes().len() - 1,
            c1.scopes().last().insert(normalize(name), v),
        ),
        c2.same_but_scopes(&c1),
        // reserving its LX
        c3.local_lx().used == c2.local_lx().used + size,
        c3.lx_sizes() == c2.lx_sizes().insert(normalize(name), size),
        c3.local_lx().used - sum_sizes(c3.lx_bytes@) == c2.local_lx().used - sum_sizes(c2.lx_bytes@)
            + (if c2.lx_sizes().contains_key(normalize(name)) {
            c2.lx_sizes()[normalize(name)] as int
        } else {
            0
        }),
        c3.scope_stack == c2.scope_stack,
        c3.lx_next_ptr_stack == c2.lx_next_ptr_stack,
        c3.core_id == c2.core_id,
        // leaving the region
        c4.wf(),
        c4.scopes() == c3.scopes().drop_last(),
        c4.lx_next_ptr_stack@ == c3.lx_next_ptr_stack@.drop_last(),
        c4.local_lx().next_ptr == c3.lx_next_ptr_stack@.last(),
        c4.lx_sizes() == c3.lx_sizes().remove_keys(c3.scopes().last().dom()),
        c4.local_lx().used - sum_sizes(c4.lx_bytes@) == c3.local_lx().used - sum_sizes(c3.lx_bytes@),
    ensures
        c4.scopes() == c0.scopes(),
        c4.lx_next_ptr_stack@ == c0.lx_next_ptr_stack@,
        c4.local_lx().next_ptr == c0.local_lx().next_ptr,
        c4.lx_sizes() == c0.lx_sizes(),
        c4.local_lx().used == c0.local_lx().used,
{
    let n = normalize(name);
    assert(c3.scopes() == c2.scopes());
    assert(c3.scopes().last() == Map::<Seq<char>, Value>::empty().insert(n, v));
    assert(c3.scopes().last().dom() =~= set![n]);
    assert(c4.lx_sizes() =~= c0.lx_sizes());
    assert(c4.scopes() =~= c0.scopes());
    assert(c4.lx_next_ptr_stack@ =~= c0.lx_next_ptr_stack@);
    lemma_sum_same_map(c4.lx_bytes@, c0.lx_bytes@);
}

/// A binding in an inner scope shadows an outer binding of the same name.
pub proof fn lemma_inner_shadows(c: CoreContext, name: Seq<char>, v: Value)
    requires
        c.scopes().len() > 0,
        c.scopes().last().contains_key(normalize(name)),
        c.scopes().last()[normalize(name)] == v,
    ensures
        c.lookup(name) == Some(v),
{
}

/// Recording LX for a name and then releasing it gives back the bytes used
/// before and forgets the name.
pub proof fn lemma_track_then_untrack(c0: CoreContext, c1: CoreContext, c2: CoreContext, name: Seq<char>, size: i64)
    requires
        c1.local_lx().used == c0.local_lx().used + size,
        c1.lx_sizes() == c0.lx_sizes().insert(normalize(name), size),
        c2.lx_sizes() == c1.lx_sizes().remove(normalize(name)),
        c2.local_lx().used == c1.local_lx().used - (if c1.lx_sizes().contains_key(normalize(name)) {
            c1.lx_sizes()[normalize(name)] as int
        } else {
            0
        }),
    ensures
        c2.local_lx().used == c0.local_lx().used,
        c2.lx_sizes() == c0.lx_sizes().remove(normalize(name)),
{
    assert(c2.lx_sizes() =~= c0.lx_sizes().remove(normalize(name)));
}

/// Only leading `%` sigils are dropped: names that differ otherwise stay
/// distinct, and a name without a sigil is its own key.
pub proof fn lemma_normalize_plain(s: Seq<char>)
    requires
        s.len() == 0 || s[0] != '%',
    ensures
        normalize(s) == s,
{
}

} // verus!
