//! Elements and contexts: while a kernel is recorded, each element carries a
//! context that caches field values per scope and records which fields were
//! accessed at which levels, so that they can be saved when a scope ends.
use vstd::prelude::*;

pub mod active;

use crate::assoc::{assoc_map, keys_unique, lemma_assoc_at, lemma_assoc_push, lemma_assoc_update};
use crate::field::access::{Access, AccessLevel, ListAccess};
use crate::field::{Field, FieldId, FieldRegistry, RawField};

verus! {

/// The place of a cached value: a field, an index within it, and the stack of
/// indices of the enclosing accesses.
#[derive(Debug, PartialEq, Eq, Hash)]
pub struct FieldBinding {
    pub field: FieldId,
    pub index: u64,
    pub stack: Vec<u64>,
}

/// A [`FieldBinding`] as plain values.
pub type BindingKey = (FieldId, u64, Seq<u64>);

pub open spec fn binding_key(b: FieldBinding) -> BindingKey {
    (b.field, b.index, b.stack@)
}

impl Clone for FieldBinding {
    fn clone(&self) -> (r: Self)
        ensures
            binding_key(r) == binding_key(*self),
    {
        FieldBinding { field: self.field, index: self.index, stack: self.stack.clone() }
    }
}

impl FieldBinding {
    /// The binding of a field at index 0, with an empty stack.
    pub fn new(field: FieldId) -> (r: FieldBinding)
        ensures
            binding_key(r) == (field, 0u64, Seq::<u64>::empty()),
    {
        FieldBinding { field, index: 0, stack: Vec::new() }
    }

    /// The binding at the next index.
    pub fn next(&self) -> (r: FieldBinding)
        requires
            self.index < u64::MAX,
        ensures
            binding_key(r) == (self.field, (self.index + 1) as u64, self.stack@),
    {
        FieldBinding { field: self.field, index: self.index + 1, stack: self.stack.clone() }
    }

    /// A binding one level deeper: the current index and `value` go on the
    /// stack, and the index starts again at 0.
    pub fn push(&self, value: u64) -> (r: FieldBinding)
        ensures
            binding_key(r) == (self.field, 0u64, self.stack@.push(self.index).push(value)),
    {
        let mut stack = self.stack.clone();
        stack.push(self.index);
        stack.push(value);
        FieldBinding { field: self.field, index: 0, stack }
    }

    /// Whether two bindings are the same place.
    pub fn same(&self, other: &FieldBinding) -> (r: bool)
        ensures
            r == (binding_key(*self) == binding_key(*other)),
    {
        if self.field.id != other.field.id || self.index != other.index || self.stack.len()
            != other.stack.len() {
            return false;
        }
        let mut i: usize = 0;
        while i < self.stack.len()
            invariant
                self.stack@.len() == other.stack@.len(),
                i <= self.stack@.len(),
                forall|j: int| 0 <= j < i ==> self.stack@[j] == other.stack@[j],
            decreases self.stack@.len() - i,
        {
            if self.stack[i] != other.stack[i] {
                return false;
            }
            i = i + 1;
        }
        assert(self.stack@ =~= other.stack@);
        true
    }
}

/// The entries of a cache scope as plain values.
pub open spec fn scope_entries(scope: Seq<(FieldBinding, u64)>) -> Seq<(BindingKey, u64)> {
    scope.map_values(|e: (FieldBinding, u64)| (binding_key(e.0), e.1))
}

/// The map that a cache scope stands for.
pub open spec fn scope_map(scope: Seq<(FieldBinding, u64)>) -> Map<BindingKey, u64> {
    assoc_map(scope_entries(scope))
}

/// The value cached for `k` in the innermost scope that holds one.
pub open spec fn lookup(scopes: Seq<Map<BindingKey, u64>>, k: BindingKey) -> Option<u64>
    decreases scopes.len(),
{
    if scopes.len() == 0 {
        None
    } else if scopes.last().contains_key(k) {
        Some(scopes.last()[k])
    } else {
        lookup(scopes.drop_last(), k)
    }
}

/// A new empty scope hides nothing: every lookup gives what it gave before.
pub proof fn law_enter_keeps_lookup(scopes: Seq<Map<BindingKey, u64>>, k: BindingKey)
    ensures
        lookup(scopes.push(Map::empty()), k) == lookup(scopes, k),
{
    assert(scopes.push(Map::empty()).drop_last() =~= scopes);
}

/// A value cached in the innermost scope is found there; other keys are looked
/// up in the scopes around it. Leaving the scope therefore restores every
/// lookup to what it was before the scope was entered.
pub proof fn law_inner_scope(scopes: Seq<Map<BindingKey, u64>>, inner: Map<BindingKey, u64>, k: BindingKey)
    ensures
        lookup(scopes.push(inner), k) == (if inner.contains_key(k) {
            Some(inner[k])
        } else {
            lookup(scopes, k)
        }),
        lookup(scopes.push(inner).drop_last(), k) == lookup(scopes, k),
{
    assert(scopes.push(inner).drop_last() =~= scopes);
}

/// What a cached read does to the cache scopes: where a scope holds a value for
/// `k`, that value is returned and no scope changes; where none does, the
/// returned value is cached for `k` in the innermost scope.
pub open spec fn cache_outcome(
    before: Seq<Map<BindingKey, u64>>,
    k: BindingKey,
    r: u64,
    after: Seq<Map<BindingKey, u64>>,
) -> bool {
    match lookup(before, k) {
        Some(v) => r == v && after == before,
        None => after == before.update(before.len() - 1, before.last().insert(k, r)),
    }
}

/// A mapping is computed at most once per cache scope: after one cached read
/// of a binding, a second read of it in the same scope finds the first value
/// in the cache, returns it and leaves every scope as it was. The same holds
/// in a block entered after the first read, since a new empty scope hides
/// nothing.
pub proof fn law_cache_once(
    s0: Seq<Map<BindingKey, u64>>,
    k: BindingKey,
    r1: u64,
    s1: Seq<Map<BindingKey, u64>>,
    r2: u64,
    s2: Seq<Map<BindingKey, u64>>,
)
    requires
        s0.len() >= 1,
        cache_outcome(s0, k, r1, s1),
    ensures
        lookup(s1, k) == Some(r1),
        lookup(s1.push(Map::empty()), k) == Some(r1),
        cache_outcome(s1, k, r2, s2) ==> r2 == r1 && s2 == s1,
{
    if lookup(s0, k) is None {
        assert(s1.last() == s0.last().insert(k, r1));
    }
    law_enter_keeps_lookup(s1, k);
}

/// Entering a block and then leaving it gives back the scopes, the accesses
/// and the local bindings that the context had before.
pub proof fn law_enter_exit(before: Context, entered: Context, after: Context)
    requires
        entered.scopes() == before.scopes().push(Map::empty()),
        entered.accesses() == before.accesses().push(Map::empty()),
        entered.local_bindings() == before.local_bindings(),
        exited(entered, after),
    ensures
        after.scopes() == before.scopes(),
        after.accesses() == before.accesses(),
        after.local_bindings() == before.local_bindings(),
        forall|k: BindingKey| lookup(after.scopes(), k) == lookup(before.scopes(), k),
{
    assert(before.scopes().push(Map::empty()).drop_last() =~= before.scopes());
    assert(before.accesses().push(Map::empty()).drop_last() =~= before.accesses());
}

/// The next binding and a deeper binding are never the binding they come
/// from, so the values cached for them do not collide.
pub proof fn law_bindings_distinct(b: FieldBinding, value: u64)
    requires
        b.index < u64::MAX,
    ensures
        (b.field, (b.index + 1) as u64, b.stack@) != binding_key(b),
        (b.field, 0u64, b.stack@.push(b.index).push(value)) != binding_key(b),
{
    assert(b.stack@.push(b.index).push(value).len() != b.stack@.len());
}

/// What every context of a kernel shares: the values cached for the whole
/// kernel, which no block ends.
pub struct KernelContext {
    global_cache: Vec<(FieldBinding, u64)>,
}

impl KernelContext {
    /// The values cached for the whole kernel.
    pub closed spec fn global(&self) -> Map<BindingKey, u64> {
        scope_map(self.global_cache@)
    }

    pub closed spec fn wf(&self) -> bool {
        keys_unique(scope_entries(self.global_cache@))
    }

    /// A kernel context with nothing cached.
    pub fn new() -> (r: KernelContext)
        ensures
            r.wf(),
            r.global() == Map::<BindingKey, u64>::empty(),
    {
        let r = KernelContext { global_cache: Vec::new() };
        assert(scope_entries(r.global_cache@) =~= Seq::<(BindingKey, u64)>::empty());
        assert(r.global() =~= Map::<BindingKey, u64>::empty());
        r
    }

    /// The value cached for a binding for the whole kernel.
    pub fn get_cache_global(&self, key: &FieldBinding) -> (r: Option<u64>)
        requires
            self.wf(),
        ensures
            r == (if self.global().contains_key(binding_key(*key)) {
                Some(self.global()[binding_key(*key)])
            } else {
                None::<u64>
            }),
    {
        let found = scope_find(&self.global_cache, key);
        proof {
            lemma_scope_lookup(self.global_cache@, binding_key(*key), found);
        }
        match found {
            Some(j) => Some(self.global_cache[j].1),
            None => None,
        }
    }

    /// Caches a value for a binding for the whole kernel.
    pub fn insert_cache_global(&mut self, key: &FieldBinding, value: u64)
        requires
            old(self).wf(),
        ensures
            final(self).wf(),
            final(self).global() == old(self).global().insert(binding_key(*key), value),
    {
        let ghost k = binding_key(*key);
        let ghost before = self.global_cache@;
        let found = scope_find(&self.global_cache, key);
        proof {
            lemma_scope_lookup(before, k, found);
        }
        match found {
            Some(j) => {
                let b = self.global_cache[j].0.clone();
                self.global_cache.set(j, (b, value));
                proof {
                    assert(scope_entries(self.global_cache@) == scope_entries(before).update(
                        j as int,
                        (scope_entries(before)[j as int].0, value),
                    ));
                    lemma_assoc_update(scope_entries(before), j as int, value);
                }
            },
            None => {
                self.global_cache.push((key.clone(), value));
                proof {
                    assert(scope_entries(self.global_cache@) == scope_entries(before).push((k, value)));
                    lemma_assoc_push(scope_entries(before), k, value);
                }
            },
        }
    }

    /// The value cached for a binding for the whole kernel, caching
    /// `compute()` first where none is.
    pub fn get_cache_or_insert_with_global<F: FnOnce() -> u64>(&mut self, key: &FieldBinding, compute: F) -> (r:
        u64)
        requires
            old(self).wf(),
            call_requires(compute, ()),
        ensures
            final(self).wf(),
            old(self).global().contains_key(binding_key(*key)) ==> r == old(self).global()[binding_key(*key)]
                && final(self).global() == old(self).global(),
            !old(self).global().contains_key(binding_key(*key)) ==> call_ensures(compute, (), r)
                && final(self).global() == old(self).global().insert(binding_key(*key), r),
    {
        match self.get_cache_global(key) {
            Some(v) => v,
            None => {
                let v = compute();
                self.insert_cache_global(key, v);
                v
            },
        }
    }
}

/// The levels are in strictly decreasing order.
pub open spec fn sorted_desc(s: Seq<u8>) -> bool {
    forall|i: int, j: int| 0 <= i < j < s.len() ==> s[i] > s[j]
}

/// The levels of some access levels.
pub open spec fn level_values(s: Seq<AccessLevel>) -> Seq<u8> {
    s.map_values(|l: AccessLevel| l.0)
}

/// The levels held in a list of access levels, as a set.
pub open spec fn level_set(s: Seq<AccessLevel>) -> Set<u8> {
    Set::new(|l: u8| exists|i: int| 0 <= i < s.len() && s[i].0 == l)
}

/// The map that the entries of an access scope stand for: each field with the
/// set of levels at which it was accessed.
pub open spec fn access_map(entries: Seq<(FieldId, Vec<AccessLevel>)>) -> Map<FieldId, Set<u8>> {
    assoc_map(entries.map_values(|e: (FieldId, Vec<AccessLevel>)| (e.0, level_set(e.1@))))
}

/// The mapping that serves a field in a context: the one bound to it in the
/// context, else the one bound to it in the registry.
pub open spec fn mapping_of(local: Map<FieldId, u64>, fields: Map<u64, RawField>, f: FieldId) -> Option<u64> {
    if local.contains_key(f) {
        Some(local[f])
    } else if fields.contains_key(f.id) {
        fields[f.id].binding
    } else {
        None
    }
}

/// What leaving a scope asks of the mapping of a field that was accessed in
/// it: save the value accessed at `level`. `cached` is the value cached for the
/// field's first binding when the scope is left.
#[derive(Debug, Clone, Copy, PartialEq, Eq)]
pub struct Save {
    pub field: FieldId,
    pub mapping: u64,
    pub level: AccessLevel,
    pub cached: Option<u64>,
}

/// The (field, level) pairs of the entries of an access scope, entry by
/// entry, each entry's levels in the order in which they are held.
pub open spec fn access_pairs(entries: Seq<(FieldId, Vec<AccessLevel>)>) -> Seq<(FieldId, u8)>
    decreases entries.len(),
{
    if entries.len() == 0 {
        Seq::empty()
    } else {
        access_pairs(entries.drop_last()) + level_values(entries.last().1@).map_values(
            |l: u8| (entries.last().0, l),
        )
    }
}

proof fn lemma_access_pairs(entries: Seq<(FieldId, Vec<AccessLevel>)>)
    requires
        keys_unique(entries),
        forall|j: int| 0 <= j < entries.len() ==> sorted_desc(level_values(#[trigger] entries[j].1@)),
    ensures
        forall|i: int|
            0 <= i < access_pairs(entries).len() ==> exists|j: int|
                0 <= j < entries.len() && entries[j].0 == (#[trigger] access_pairs(entries)[i]).0
                    && level_set(entries[j].1@).contains(access_pairs(entries)[i].1),
        forall|j: int, l: u8|
            0 <= j < entries.len() && #[trigger] level_set(entries[j].1@).contains(l) ==> access_pairs(
                entries,
            ).contains((entries[j].0, l)),
        forall|i: int, i2: int|
            0 <= i < i2 < access_pairs(entries).len() && (#[trigger] access_pairs(entries)[i]).0 == (
            #[trigger] access_pairs(entries)[i2]).0 ==> access_pairs(entries)[i].1 > access_pairs(
                entries,
            )[i2].1,
    decreases entries.len(),
{
    if entries.len() > 0 {
        let init = entries.drop_last();
        let last = entries.last();
        let n = entries.len() - 1;
        assert forall|j: int| 0 <= j < init.len() implies sorted_desc(level_values(#[trigger] init[j].1@)) by {
            assert(init[j] == entries[j]);
        }
        lemma_access_pairs(init);
        let p = access_pairs(init);
        let q = level_values(last.1@).map_values(|l: u8| (last.0, l));
        let all = access_pairs(entries);
        assert(all == p + q);
        assert forall|i: int| 0 <= i < all.len() implies exists|j: int|
            0 <= j < entries.len() && entries[j].0 == (#[trigger] all[i]).0 && level_set(
                entries[j].1@,
            ).contains(all[i].1) by {
            if i < p.len() {
                assert(all[i] == p[i]);
                let j = choose|j: int|
                    0 <= j < init.len() && init[j].0 == (#[trigger] p[i]).0 && level_set(
                        init[j].1@,
                    ).contains(p[i].1);
                assert(entries[j] == init[j]);
            } else {
                let k = i - p.len();
                assert(all[i] == q[k]);
                assert(last.1@[k].0 == all[i].1);
                assert(level_set(entries[n].1@).contains(all[i].1));
            }
        }
        assert forall|j: int, l: u8|
            0 <= j < entries.len() && #[trigger] level_set(entries[j].1@).contains(l) implies all.contains(
            (entries[j].0, l)) by {
            if j < n {
                assert(entries[j] == init[j]);
                assert(p.contains((entries[j].0, l)));
                let i = choose|i: int| 0 <= i < p.len() && p[i] == (entries[j].0, l);
                assert(all[i] == p[i]);
            } else {
                let k = choose|k: int| 0 <= k < last.1@.len() && last.1@[k].0 == l;
                assert(all[p.len() + k] == q[k]);
            }
        }
        assert forall|i: int, i2: int|
            0 <= i < i2 < all.len() && (#[trigger] all[i]).0 == (#[trigger] all[i2]).0 implies all[i].1
            > all[i2].1 by {
            if i2 < p.len() {
                assert(all[i] == p[i] && all[i2] == p[i2]);
            } else if i >= p.len() {
                assert(all[i] == q[i - p.len()] && all[i2] == q[i2 - p.len()]);
                assert(sorted_desc(level_values(entries[n].1@)));
            } else {
                assert(all[i] == p[i] && all[i2] == q[i2 - p.len()]);
                let j = choose|j: int|
                    0 <= j < init.len() && init[j].0 == (#[trigger] p[i]).0 && level_set(
                        init[j].1@,
                    ).contains(p[i].1);
                assert(entries[j] == init[j]);
                assert(entries[j].0 == entries[n].0);
            }
        }
    }
}

/// The (field, level) pairs of some saves.
pub open spec fn save_pairs(s: Seq<Save>) -> Seq<(FieldId, u8)> {
    s.map_values(|x: Save| (x.field, x.level.0))
}

proof fn lemma_access_map_at(entries: Seq<(FieldId, Vec<AccessLevel>)>, j: int)
    requires
        keys_unique(entries),
        0 <= j < entries.len(),
    ensures
        access_map(entries).contains_key(entries[j].0),
        access_map(entries)[entries[j].0] == level_set(entries[j].1@),
{
    let m = entries.map_values(|e: (FieldId, Vec<AccessLevel>)| (e.0, level_set(e.1@)));
    assert forall|a: int, b: int| 0 <= a < m.len() && 0 <= b < m.len() && a != b implies m[a].0 != m[b].0 by {
        assert(m[a].0 == entries[a].0 && m[b].0 == entries[b].0);
    }
    lemma_assoc_at(m, j);
}

/// Looks a field up in one access scope.
fn entry_find(entries: &Vec<(FieldId, Vec<AccessLevel>)>, field: FieldId) -> (r: Option<usize>)
    ensures
        match r {
            Some(j) => j < entries@.len() && entries@[j as int].0 == field,
            None => forall|j: int| 0 <= j < entries@.len() ==> (#[trigger] entries@[j]).0 != field,
        },
{
    let mut i: usize = 0;
    while i < entries.len()
        invariant
            i <= entries@.len(),
            forall|j: int| 0 <= j < i ==> (#[trigger] entries@[j]).0 != field,
        decreases entries@.len() - i,
    {
        if entries[i].0.id == field.id {
            return Some(i);
        }
        i = i + 1;
    }
    None
}

/// Looks a binding up in one cache scope.
fn scope_find(scope: &Vec<(FieldBinding, u64)>, key: &FieldBinding) -> (r: Option<usize>)
    ensures
        match r {
            Some(j) => j < scope@.len() && binding_key(scope@[j as int].0) == binding_key(*key),
            None => forall|j: int| 0 <= j < scope@.len() ==> binding_key(#[trigger] scope@[j].0) != binding_key(*key),
        },
{
    let mut i: usize = 0;
    while i < scope.len()
        invariant
            i <= scope@.len(),
            forall|j: int| 0 <= j < i ==> binding_key(#[trigger] scope@[j].0) != binding_key(*key),
        decreases scope@.len() - i,
    {
        if scope[i].0.same(key) {
            return Some(i);
        }
        i = i + 1;
    }
    None
}

proof fn lemma_scope_lookup(scope: Seq<(FieldBinding, u64)>, k: BindingKey, r: Option<usize>)
    requires
        keys_unique(scope_entries(scope)),
        match r {
            Some(j) => j < scope.len() && binding_key(scope[j as int].0) == k,
            None => forall|j: int| 0 <= j < scope.len() ==> binding_key(#[trigger] scope[j].0) != k,
        },
    ensures
        match r {
            Some(j) => scope_map(scope).contains_key(k) && scope_map(scope)[k] == scope[j as int].1,
            None => !scope_map(scope).contains_key(k),
        },
{
    let e = scope_entries(scope);
    match r {
        Some(j) => {
            lemma_assoc_at(e, j as int);
        },
        None => {
            if scope_map(scope).contains_key(k) {
                let j = choose|j: int| 0 <= j < e.len() && e[j].0 == k;
                assert(binding_key(scope[j].0) == k);
            }
        },
    }
}

/// Inserts a level into a list held from the deepest level down.
fn insert_level(levels: &mut Vec<AccessLevel>, level: AccessLevel)
    requires
        sorted_desc(level_values(old(levels)@)),
    ensures
        sorted_desc(level_values(final(levels)@)),
        level_set(final(levels)@) == level_set(old(levels)@).insert(level.0),
{
    let mut i: usize = 0;
    while i < levels.len() && levels[i].0 > level.0
        invariant
            i <= levels@.len(),
            levels@ == old(levels)@,
            sorted_desc(level_values(levels@)),
            forall|j: int| 0 <= j < i ==> (#[trigger] levels@[j]).0 > level.0,
        decreases levels@.len() - i,
    {
        i = i + 1;
    }
    if i < levels.len() && levels[i].0 == level.0 {
        assert(level_set(levels@) =~= level_set(levels@).insert(level.0));
        return;
    }
    let ghost before = levels@;
    assert forall|j: int| i <= j < before.len() implies (#[trigger] before[j]).0 < level.0 by {
        if j > i {
            assert(level_values(before)[i as int] > level_values(before)[j]);
        }
    }
    levels.insert(i, level);
    assert(levels@ == before.insert(i as int, level));
    assert forall|a: int, b: int| 0 <= a < b < levels@.len() implies level_values(levels@)[a]
        > level_values(levels@)[b] by {
        if b < i {
            assert(level_values(before)[a] > level_values(before)[b]);
        } else if a > i {
            assert(level_values(before)[a - 1] > level_values(before)[b - 1]);
        } else if a < i && b > i {
            assert(levels@[a] == before[a] && levels@[b] == before[b - 1]);
        }
    }
    assert forall|l: u8| level_set(levels@).contains(l) == level_set(before).insert(level.0).contains(l) by {
        if l == level.0 {
            assert(levels@[i as int].0 == l);
        }
        if level_set(levels@).contains(l) {
            let j = choose|j: int| 0 <= j < levels@.len() && levels@[j].0 == l;
            if j < i {
                assert(before[j].0 == l);
            } else if j > i {
                assert(before[j - 1].0 == l);
            }
        }
        if level_set(before).contains(l) {
            let j = choose|j: int| 0 <= j < before.len() && before[j].0 == l;
            if j < i {
                assert(levels@[j].0 == l);
            } else {
                assert(levels@[j + 1].0 == l);
            }
        }
    }
    assert(level_set(levels@) =~= level_set(before).insert(level.0));
}

/// The cache of a context: one scope per block entered.
pub struct FieldCache {
    pub cache_stack: Vec<Vec<(FieldBinding, u64)>>,
}

impl FieldCache {
    /// A cache with one empty scope.
    pub fn new() -> (r: FieldCache)
        ensures
            r.cache_stack@.len() == 1,
            r.cache_stack@[0]@.len() == 0,
    {
        FieldCache { cache_stack: vec![Vec::new()] }
    }
}

/// The state of an element while a kernel is recorded: the mappings bound to
/// fields locally, the cache scopes, and per scope the fields accessed with
/// the levels at which they were.
pub struct Context {
    bindings: Vec<(FieldId, u64)>,
    cache: FieldCache,
    context_stack: Vec<Vec<(FieldId, Vec<AccessLevel>)>>,
}

/// `b` is `a` with an access of `field` at `level` recorded in its innermost scope.
pub open spec fn records_access(a: Context, b: Context, field: FieldId, level: u8) -> bool {
    b.accesses() == a.accesses().update(
        a.depth() - 1,
        a.accesses().last().insert(
            field,
            if a.accesses().last().contains_key(field) {
                a.accesses().last()[field].insert(level)
            } else {
                set![level]
            },
        ),
    )
}

impl Context {
    /// The cache scopes, outermost first.
    pub closed spec fn scopes(&self) -> Seq<Map<BindingKey, u64>> {
        self.cache.cache_stack@.map_values(|s: Vec<(FieldBinding, u64)>| scope_map(s@))
    }

    /// The recorded accesses of each scope: each field accessed in it, with
    /// the set of levels at which it was.
    pub closed spec fn accesses(&self) -> Seq<Map<FieldId, Set<u8>>> {
        self.context_stack@.map_values(|s: Vec<(FieldId, Vec<AccessLevel>)>| access_map(s@))
    }

    /// The mappings bound to fields in this context alone.
    pub closed spec fn local_bindings(&self) -> Map<FieldId, u64> {
        assoc_map(self.bindings@)
    }

    /// The number of scopes.
    pub open spec fn depth(&self) -> nat {
        self.scopes().len()
    }

    pub closed spec fn wf(&self) -> bool {
        &&& self.cache.cache_stack@.len() == self.context_stack@.len()
        &&& keys_unique(self.bindings@)
        &&& forall|i: int|
            0 <= i < self.cache.cache_stack@.len() ==> keys_unique(
                scope_entries(#[trigger] self.cache.cache_stack@[i]@),
            )
        &&& forall|i: int|
            0 <= i < self.context_stack@.len() ==> keys_unique(#[trigger] self.context_stack@[i]@)
        &&& forall|i: int, j: int|
            0 <= i < self.context_stack@.len() && 0 <= j < self.context_stack@[i]@.len() ==> sorted_desc(
                level_values(#[trigger] self.context_stack@[i]@[j].1@),
            )
    }

    /// A context with one empty scope.
    pub fn new() -> (r: Context)
        ensures
            r.wf(),
            r.depth() == 1,
            r.scopes()[0] == Map::<BindingKey, u64>::empty(),
            r.accesses().len() == 1,
            r.accesses()[0] == Map::<FieldId, Set<u8>>::empty(),
            r.local_bindings() == Map::<FieldId, u64>::empty(),
    {
        let r = Context {
            bindings: Vec::new(),
            cache: FieldCache::new(),
            context_stack: vec![Vec::new()],
        };
        assert(scope_entries(r.cache.cache_stack@[0]@) =~= Seq::<(BindingKey, u64)>::empty());
        assert(r.scopes()[0] =~= Map::<BindingKey, u64>::empty());
        assert(r.accesses()[0] =~= Map::<FieldId, Set<u8>>::empty());
        assert(r.local_bindings() =~= Map::<FieldId, u64>::empty());
        r
    }

    /// The value cached for a binding in the innermost scope that holds one.
    pub fn get_cache(&self, key: &FieldBinding) -> (r: Option<u64>)
        requires
            self.wf(),
        ensures
            r == lookup(self.scopes(), binding_key(*key)),
    {
        let ghost k = binding_key(*key);
        let n = self.cache.cache_stack.len();
        let mut i = n;
        assert(self.scopes().take(n as int) =~= self.scopes());
        while i > 0
            invariant
                i <= n,
                n == self.cache.cache_stack@.len(),
                n == self.scopes().len(),
                self.wf(),
                k == binding_key(*key),
                lookup(self.scopes(), k) == lookup(self.scopes().take(i as int), k),
            decreases i,
        {
            let scope = &self.cache.cache_stack[i - 1];
            let found = scope_find(scope, key);
            proof {
                lemma_scope_lookup(scope@, k, found);
                let t = self.scopes().take(i as int);
                assert(t.last() == scope_map(scope@));
                assert(t.drop_last() =~= self.scopes().take(i - 1));
            }
            match found {
                Some(j) => {
                    return Some(scope[j].1);
                },
                None => {},
            }
            i = i - 1;
        }
        None
    }

    /// Caches a value for a binding in the innermost scope.
    pub fn insert_cache(&mut self, key: &FieldBinding, value: u64)
        requires
            old(self).wf(),
            old(self).depth() >= 1,
        ensures
            final(self).wf(),
            final(self).scopes() == old(self).scopes().update(
                old(self).depth() - 1,
                old(self).scopes().last().insert(binding_key(*key), value),
            ),
            final(self).accesses() == old(self).accesses(),
            final(self).local_bindings() == old(self).local_bindings(),
    {
        let ghost k = binding_key(*key);
        let ghost n = self.cache.cache_stack@.len();
        let mut top = self.cache.cache_stack.pop().unwrap();
        assert(old(self).cache.cache_stack@[n - 1] == top);
        let found = scope_find(&top, key);
        proof {
            lemma_scope_lookup(top@, k, found);
        }
        let ghost before = top@;
        match found {
            Some(j) => {
                let b = top[j].0.clone();
                top.set(j, (b, value));
                proof {
                    assert(scope_entries(top@) == scope_entries(before).update(
                        j as int,
                        (scope_entries(before)[j as int].0, value),
                    ));
                    lemma_assoc_update(scope_entries(before), j as int, value);
                }
            },
            None => {
                top.push((key.clone(), value));
                proof {
                    assert(scope_entries(top@) == scope_entries(before).push((k, value)));
                    lemma_assoc_push(scope_entries(before), k, value);
                }
            },
        }
        self.cache.cache_stack.push(top);
        proof {
            assert(self.cache.cache_stack@ == old(self).cache.cache_stack@.update(n - 1, top));
            assert forall|i: int| 0 <= i < self.cache.cache_stack@.len() implies keys_unique(
                scope_entries(#[trigger] self.cache.cache_stack@[i]@),
            ) by {
                if i != n - 1 {
                    assert(self.cache.cache_stack@[i] == old(self).cache.cache_stack@[i]);
                }
            }
            assert(self.scopes() =~= old(self).scopes().update(
                n - 1,
                old(self).scopes().last().insert(k, value),
            ));
        }
    }

    /// The cached value of a binding, caching `compute()` for it in the
    /// innermost scope first where no scope holds one.
    pub fn get_cache_or_insert_with<F: FnOnce() -> u64>(&mut self, key: &FieldBinding, compute: F) -> (r: u64)
        requires
            old(self).wf(),
            old(self).depth() >= 1,
            call_requires(compute, ()),
        ensures
            final(self).wf(),
            final(self).accesses() == old(self).accesses(),
            final(self).local_bindings() == old(self).local_bindings(),
            cache_outcome(old(self).scopes(), binding_key(*key), r, final(self).scopes()),
            lookup(old(self).scopes(), binding_key(*key)) is None ==> call_ensures(compute, (), r),
    {
        match self.get_cache(key) {
            Some(v) => v,
            None => {
                let v = compute();
                self.insert_cache(key, v);
                v
            },
        }
    }

    /// Enters a block: a new empty cache scope and access scope.
    pub fn enter(&mut self)
        requires
            old(self).wf(),
        ensures
            final(self).wf(),
            final(self).scopes() == old(self).scopes().push(Map::empty()),
            final(self).accesses() == old(self).accesses().push(Map::empty()),
            final(self).local_bindings() == old(self).local_bindings(),
    {
        self.context_stack.push(Vec::new());
        self.cache.cache_stack.push(Vec::new());
        proof {
            let n = old(self).cache.cache_stack@.len();
            assert(scope_entries(self.cache.cache_stack@[n as int]@) =~= Seq::<(BindingKey, u64)>::empty());
            assert(self.scopes()[n as int] =~= Map::<BindingKey, u64>::empty());
            assert(self.scopes() =~= old(self).scopes().push(Map::empty()));
            assert(self.accesses()[n as int] =~= Map::<FieldId, Set<u8>>::empty());
            assert(self.accesses() =~= old(self).accesses().push(Map::empty()));
            assert forall|i: int| 0 <= i < self.cache.cache_stack@.len() implies keys_unique(
                scope_entries(#[trigger] self.cache.cache_stack@[i]@),
            ) by {
                if i < n {
                    assert(self.cache.cache_stack@[i] == old(self).cache.cache_stack@[i]);
                }
            }
            assert forall|i: int| 0 <= i < self.context_stack@.len() implies keys_unique(
                #[trigger] self.context_stack@[i]@,
            ) by {
                if i < n {
                    assert(self.context_stack@[i] == old(self).context_stack@[i]);
                }
            }
            assert forall|i: int, j: int|
                0 <= i < self.context_stack@.len() && 0 <= j < self.context_stack@[i]@.len() implies sorted_desc(
                level_values(#[trigger] self.context_stack@[i]@[j].1@),
            ) by {
                assert(i < n);
                assert(self.context_stack@[i] == old(self).context_stack@[i]);
            }
        }
    }

    /// The mapping bound to a field in this context alone.
    pub fn local_binding(&self, field: FieldId) -> (r: Option<u64>)
        requires
            self.wf(),
        ensures
            r == (if self.local_bindings().contains_key(field) {
                Some(self.local_bindings()[field])
            } else {
                None::<u64>
            }),
    {
        let mut i: usize = 0;
        while i < self.bindings.len()
            invariant
                i <= self.bindings@.len(),
                self.wf(),
                forall|j: int| 0 <= j < i ==> (#[trigger] self.bindings@[j]).0 != field,
            decreases self.bindings@.len() - i,
        {
            if self.bindings[i].0.id == field.id {
                proof {
                    lemma_assoc_at(self.bindings@, i as int);
                }
                return Some(self.bindings[i].1);
            }
            i = i + 1;
        }
        None
    }

    /// Binds a mapping to a field in this context; the field must not be
    /// bound in it yet.
    pub fn bind_local(&mut self, field: FieldId, mapping: u64)
        requires
            old(self).wf(),
            !old(self).local_bindings().contains_key(field),
        ensures
            final(self).wf(),
            final(self).local_bindings() == old(self).local_bindings().insert(field, mapping),
            final(self).scopes() == old(self).scopes(),
            final(self).accesses() == old(self).accesses(),
    {
        proof {
            lemma_assoc_push(self.bindings@, field, mapping);
        }
        self.bindings.push((field, mapping));
    }

    /// The mapping that serves a field here: the one bound to it in this
    /// context, else the one bound to it in the registry.
    pub fn on_mapping_opt(&self, field: FieldId, registry: &FieldRegistry) -> (r: Option<u64>)
        requires
            self.wf(),
        ensures
            r == mapping_of(self.local_bindings(), registry.fields(), field),
    {
        match self.local_binding(field) {
            Some(m) => Some(m),
            None => match registry.get(field) {
                Some(raw) => raw.binding,
                None => None,
            },
        }
    }

    /// Records that a field was accessed at a level in the innermost scope.
    pub fn record_access(&mut self, field: FieldId, level: AccessLevel)
        requires
            old(self).wf(),
            old(self).depth() >= 1,
        ensures
            final(self).wf(),
            final(self).scopes() == old(self).scopes(),
            final(self).local_bindings() == old(self).local_bindings(),
            final(self).accesses() == old(self).accesses().update(
                old(self).depth() - 1,
                old(self).accesses().last().insert(
                    field,
                    if old(self).accesses().last().contains_key(field) {
                        old(self).accesses().last()[field].insert(level.0)
                    } else {
                        set![level.0]
                    },
                ),
            ),
    {
        let ghost n = self.context_stack@.len();
        let mut top = self.context_stack.pop().unwrap();
        assert(old(self).context_stack@[n - 1] == top);
        let ghost before = top@;
        let ghost g = |e: (FieldId, Vec<AccessLevel>)| (e.0, level_set(e.1@));
        assert(keys_unique(before));
        assert(forall|j: int| 0 <= j < before.len() ==> sorted_desc(
            level_values(#[trigger] before[j].1@),
        )) by {
            assert forall|j: int| 0 <= j < before.len() implies sorted_desc(
                level_values(#[trigger] before[j].1@),
            ) by {
                assert(old(self).context_stack@[n - 1]@[j] == before[j]);
            }
        }
        match entry_find(&top, field) {
            Some(j) => {
                let mut entry = top.remove(j);
                proof {
                    lemma_access_map_at(before, j as int);
                }
                insert_level(&mut entry.1, level);
                top.insert(j, entry);
                proof {
                    assert(top@ == before.update(j as int, entry));
                    assert forall|a: int, b: int|
                        0 <= a < top@.len() && 0 <= b < top@.len() && a != b implies top@[a].0
                        != top@[b].0 by {
                        assert(before[a].0 == top@[a].0 && before[b].0 == top@[b].0);
                    }
                    let bm = before.map_values(g);
                    assert(keys_unique(bm)) by {
                        assert forall|a: int, b: int|
                            0 <= a < bm.len() && 0 <= b < bm.len() && a != b implies bm[a].0 != bm[b].0 by {
                            assert(bm[a].0 == before[a].0 && bm[b].0 == before[b].0);
                        }
                    }
                    assert(top@.map_values(g) == bm.update(j as int, (bm[j as int].0, level_set(entry.1@))));
                    lemma_assoc_update(bm, j as int, level_set(entry.1@));
                }
            },
            None => {
                let mut levels: Vec<AccessLevel> = Vec::new();
                levels.push(level);
                proof {
                    assert(level_set(levels@) =~= set![level.0]) by {
                        assert(levels@[0].0 == level.0);
                    }
                    let bm = before.map_values(g);
                    assert(keys_unique(bm)) by {
                        assert forall|a: int, b: int|
                            0 <= a < bm.len() && 0 <= b < bm.len() && a != b implies bm[a].0 != bm[b].0 by {
                            assert(bm[a].0 == before[a].0 && bm[b].0 == before[b].0);
                        }
                    }
                    assert(!assoc_map(bm).contains_key(field)) by {
                        if assoc_map(bm).contains_key(field) {
                            let j = choose|j: int| 0 <= j < bm.len() && bm[j].0 == field;
                            assert(before[j].0 == field);
                        }
                    }
                    lemma_assoc_push(bm, field, level_set(levels@));
                }
                top.push((field, levels));
                proof {
                    let bm = before.map_values(g);
                    assert(top@.map_values(g) == bm.push((field, set![level.0])));
                    assert forall|a: int, b: int|
                        0 <= a < top@.len() && 0 <= b < top@.len() && a != b implies top@[a].0
                        != top@[b].0 by {
                        if a < before.len() && b < before.len() {
                            assert(before[a].0 == top@[a].0 && before[b].0 == top@[b].0);
                        } else if a < before.len() {
                            assert(before[a].0 == top@[a].0);
                        } else {
                            assert(before[b].0 == top@[b].0);
                        }
                    }
                    assert(sorted_desc(level_values(levels@)));
                }
            },
        }
        self.context_stack.push(top);
        proof {
            assert(self.context_stack@ == old(self).context_stack@.update(n - 1, top));
            assert forall|i: int| 0 <= i < self.context_stack@.len() implies keys_unique(
                #[trigger] self.context_stack@[i]@,
            ) by {
                if i != n - 1 {
                    assert(self.context_stack@[i] == old(self).context_stack@[i]);
                }
            }
            assert forall|i: int, j: int|
                0 <= i < self.context_stack@.len() && 0 <= j < self.context_stack@[i]@.len() implies sorted_desc(
                level_values(#[trigger] self.context_stack@[i]@[j].1@),
            ) by {
                if i != n - 1 {
                    assert(self.context_stack@[i] == old(self).context_stack@[i]);
                } else if top@[j] != before[j] {
                }
            }
            assert(self.accesses() =~= old(self).accesses().update(
                n - 1,
                old(self).accesses().last().insert(
                    field,
                    if old(self).accesses().last().contains_key(field) {
                        old(self).accesses().last()[field].insert(level.0)
                    } else {
                        set![level.0]
                    },
                ),
            ));
        }
    }

    /// The saves that leaving the innermost scope asks for, entry by entry.
    fn pending_saves(&self, registry: &FieldRegistry) -> (r: Vec<Save>)
        requires
            self.wf(),
            self.depth() >= 1,
            forall|f: FieldId|
                #[trigger] self.accesses().last().contains_key(f) ==> mapping_of(
                    self.local_bindings(),
                    registry.fields(),
                    f,
                ) is Some,
        ensures
            save_pairs(r@) == access_pairs(self.context_stack@.last()@),
            forall|i: int|
                0 <= i < r@.len() ==> Some((#[trigger] r@[i]).mapping) == mapping_of(
                    self.local_bindings(),
                    registry.fields(),
                    r@[i].field,
                ) && r@[i].cached == lookup(self.scopes(), (r@[i].field, 0u64, Seq::<u64>::empty())),
    {
        let n = self.context_stack.len();
        let top = &self.context_stack[n - 1];
        assert(self.accesses().last() == access_map(top@));
        let mut saves: Vec<Save> = Vec::new();
        let mut j: usize = 0;
        while j < top.len()
            invariant
                self.wf(),
                n == self.context_stack@.len(),
                n >= 1,
                *top == self.context_stack@[n - 1],
                self.accesses().last() == access_map(top@),
                forall|f: FieldId|
                    #[trigger] self.accesses().last().contains_key(f) ==> mapping_of(
                        self.local_bindings(),
                        registry.fields(),
                        f,
                    ) is Some,
                j <= top@.len(),
                save_pairs(saves@) == access_pairs(top@.take(j as int)),
                forall|i: int|
                    0 <= i < saves@.len() ==> Some((#[trigger] saves@[i]).mapping) == mapping_of(
                        self.local_bindings(),
                        registry.fields(),
                        saves@[i].field,
                    ) && saves@[i].cached == lookup(
                        self.scopes(),
                        (saves@[i].field, 0u64, Seq::<u64>::empty()),
                    ),
            decreases top@.len() - j,
        {
            let field = top[j].0;
            proof {
                assert(keys_unique(self.context_stack@[n - 1]@));
                lemma_access_map_at(top@, j as int);
            }
            let mapping = self.on_mapping_opt(field, registry).unwrap();
            let cached = self.get_cache(&FieldBinding::new(field));
            let levels = &top[j].1;
            let ghost base = save_pairs(saves@);
            let mut k: usize = 0;
            while k < levels.len()
                invariant
                    k <= levels@.len(),
                    save_pairs(saves@) == base + level_values(levels@).take(k as int).map_values(
                        |l: u8| (field, l),
                    ),
                    Some(mapping) == mapping_of(self.local_bindings(), registry.fields(), field),
                    cached == lookup(self.scopes(), (field, 0u64, Seq::<u64>::empty())),
                    forall|i: int|
                        0 <= i < saves@.len() ==> Some((#[trigger] saves@[i]).mapping) == mapping_of(
                            self.local_bindings(),
                            registry.fields(),
                            saves@[i].field,
                        ) && saves@[i].cached == lookup(
                            self.scopes(),
                            (saves@[i].field, 0u64, Seq::<u64>::empty()),
                        ),
                decreases levels@.len() - k,
            {
                let ghost prev = saves@;
                saves.push(Save { field, mapping, level: levels[k], cached });
                proof {
                    assert(save_pairs(saves@) == save_pairs(prev).push((field, levels@[k as int].0)));
                    assert(level_values(levels@).take(k + 1) == level_values(levels@).take(
                        k as int,
                    ).push(levels@[k as int].0));
                    assert(save_pairs(saves@) =~= base + level_values(levels@).take(k + 1).map_values(
                        |l: u8| (field, l),
                    ));
                }
                k = k + 1;
            }
            proof {
                let t = top@.take(j + 1);
                assert(t.drop_last() =~= top@.take(j as int));
                assert(t.last() == top@[j as int]);
                assert(level_values(levels@).take(levels@.len() as int) =~= level_values(levels@));
                assert(access_pairs(t) == access_pairs(t.drop_last()) + level_values(
                    t.last().1@,
                ).map_values(|l: u8| (t.last().0, l)));
                assert(save_pairs(saves@) =~= access_pairs(t));
            }
            j = j + 1;
        }
        assert(top@.take(top@.len() as int) =~= top@);
        saves
    }

    /// Leaves the innermost block. Every field accessed in it must be served
    /// by a mapping; the result lists the saves that those mappings are asked
    /// for: one for each field and level at which it was accessed, each
    /// field's from the deepest level down. Then the block's cache and access
    /// scopes are dropped.
    pub fn exit(&mut self, registry: &FieldRegistry) -> (r: Vec<Save>)
        requires
            exit_ready(*old(self), registry.fields()),
        ensures
            exited(*old(self), *final(self)),
            exit_saves(*old(self), registry.fields(), r@),
    {
        let saves = self.pending_saves(registry);
        let ghost n = self.context_stack@.len();
        let ghost top = self.context_stack@[n - 1]@;
        proof {
            assert(forall|j: int| 0 <= j < top.len() ==> sorted_desc(level_values(#[trigger] top[j].1@))) by {
                assert forall|j: int| 0 <= j < top.len() implies sorted_desc(level_values(#[trigger] top[j].1@)) by {
                    assert(self.context_stack@[n - 1]@[j] == top[j]);
                }
            }
            lemma_access_pairs(top);
            let a = old(self).accesses().last();
            assert(a == access_map(top));
            let p = access_pairs(top);
            assert forall|i: int| 0 <= i < saves@.len() implies {
                let s = #[trigger] saves@[i];
                &&& a.contains_key(s.field)
                &&& a[s.field].contains(s.level.0)
            } by {
                assert(p[i] == (saves@[i].field, saves@[i].level.0));
                let j = choose|j: int|
                    0 <= j < top.len() && top[j].0 == (#[trigger] p[i]).0 && level_set(top[j].1@).contains(p[i].1);
                lemma_access_map_at(top, j);
            }
            assert forall|f: FieldId, l: u8| a.contains_key(f) && #[trigger] a[f].contains(l) implies exists|i: int|
                0 <= i < saves@.len() && (#[trigger] saves@[i]).field == f && saves@[i].level.0 == l by {
                let m = top.map_values(|e: (FieldId, Vec<AccessLevel>)| (e.0, level_set(e.1@)));
                let j = choose|j: int| 0 <= j < m.len() && m[j].0 == f;
                assert(top[j].0 == f);
                lemma_access_map_at(top, j);
                assert(level_set(top[j].1@).contains(l));
                assert(p.contains((f, l)));
                let i = choose|i: int| 0 <= i < p.len() && p[i] == (f, l);
                assert(save_pairs(saves@)[i] == (saves@[i].field, saves@[i].level.0));
            }
            assert forall|i: int, i2: int|
                0 <= i < i2 < saves@.len() && (#[trigger] saves@[i]).field == (#[trigger] saves@[i2]).field implies saves@[i].level.0
                > saves@[i2].level.0 by {
                assert(p[i] == (saves@[i].field, saves@[i].level.0));
                assert(p[i2] == (saves@[i2].field, saves@[i2].level.0));
            }
        }
        self.context_stack.pop();
        self.cache.cache_stack.pop();
        proof {
            assert(self.scopes() =~= old(self).scopes().drop_last());
            assert(self.accesses() =~= old(self).accesses().drop_last());
            assert forall|i: int| 0 <= i < self.cache.cache_stack@.len() implies keys_unique(
                scope_entries(#[trigger] self.cache.cache_stack@[i]@),
            ) by {
                assert(self.cache.cache_stack@[i] == old(self).cache.cache_stack@[i]);
            }
            assert forall|i: int| 0 <= i < self.context_stack@.len() implies keys_unique(
                #[trigger] self.context_stack@[i]@,
            ) by {
                assert(self.context_stack@[i] == old(self).context_stack@[i]);
            }
            assert forall|i: int, j: int|
                0 <= i < self.context_stack@.len() && 0 <= j < self.context_stack@[i]@.len() implies sorted_desc(
                level_values(#[trigger] self.context_stack@[i]@[j].1@),
            ) by {
                assert(self.context_stack@[i] == old(self).context_stack@[i]);
            }
        }
        saves
    }
}

/// A context can leave its innermost block: it is well formed, has a block,
/// and every field accessed in the block is served by a mapping.
pub open spec fn exit_ready(ctx: Context, fields: Map<u64, RawField>) -> bool {
    &&& ctx.wf()
    &&& ctx.depth() >= 1
    &&& forall|f: FieldId|
        #[trigger] ctx.accesses().last().contains_key(f) ==> mapping_of(ctx.local_bindings(), fields, f) is Some
}

/// `after` is `before` with its innermost cache and access scopes dropped.
pub open spec fn exited(before: Context, after: Context) -> bool {
    &&& after.wf()
    &&& after.scopes() == before.scopes().drop_last()
    &&& after.accesses() == before.accesses().drop_last()
    &&& after.local_bindings() == before.local_bindings()
}

/// `saves` are the saves that leaving the innermost block of `ctx` asks for:
/// one for each field accessed in the block and each level at which it was,
/// with the mapping that serves the field and the value cached for its first
/// binding, each field's saves from the deepest level down.
pub open spec fn exit_saves(ctx: Context, fields: Map<u64, RawField>, saves: Seq<Save>) -> bool {
    let a = ctx.accesses().last();
    &&& forall|i: int|
        0 <= i < saves.len() ==> {
            let s = #[trigger] saves[i];
            &&& a.contains_key(s.field)
            &&& a[s.field].contains(s.level.0)
            &&& Some(s.mapping) == mapping_of(ctx.local_bindings(), fields, s.field)
            &&& s.cached == lookup(ctx.scopes(), (s.field, 0u64, Seq::<u64>::empty()))
        }
    &&& forall|f: FieldId, l: u8|
        a.contains_key(f) && #[trigger] a[f].contains(l) ==> exists|i: int|
            0 <= i < saves.len() && (#[trigger] saves[i]).field == f && saves[i].level.0 == l
    &&& forall|i: int, i2: int|
        0 <= i < i2 < saves.len() && (#[trigger] saves[i]).field == (#[trigger] saves[i2]).field
            ==> saves[i].level.0 > saves[i2].level.0
}

impl FieldId {
    /// Accesses the field as `X` in a context: records the access at `X`'s
    /// level in the innermost scope, and gives the mapping that serves the
    /// access, or `None` where the field is bound to none.
    pub fn at_opt<X: Access>(self, ctx: &mut Context, registry: &FieldRegistry) -> (r: Option<u64>)
        requires
            old(ctx).wf(),
            old(ctx).depth() >= 1,
        ensures
            final(ctx).wf(),
            final(ctx).scopes() == old(ctx).scopes(),
            final(ctx).local_bindings() == old(ctx).local_bindings(),
            final(ctx).accesses() == old(ctx).accesses().update(
                old(ctx).depth() - 1,
                old(ctx).accesses().last().insert(
                    self,
                    if old(ctx).accesses().last().contains_key(self) {
                        old(ctx).accesses().last()[self].insert(X::spec_level())
                    } else {
                        set![X::spec_level()]
                    },
                ),
            ),
            r == mapping_of(old(ctx).local_bindings(), registry.fields(), self),
    {
        ctx.record_access(self, X::level());
        ctx.on_mapping_opt(self, registry)
    }
}

impl<X: Access, I> Field<X, I> {
    /// Accesses the field in a context, which must serve it with a mapping:
    /// records the access at `X`'s level in the innermost scope, and gives the
    /// mapping.
    pub fn at_split(&self, ctx: &mut Context, registry: &FieldRegistry) -> (r: u64)
        requires
            old(ctx).wf(),
            old(ctx).depth() >= 1,
            mapping_of(old(ctx).local_bindings(), registry.fields(), self.id) is Some,
        ensures
            final(ctx).wf(),
            final(ctx).scopes() == old(ctx).scopes(),
            final(ctx).local_bindings() == old(ctx).local_bindings(),
            final(ctx).accesses() == old(ctx).accesses().update(
                old(ctx).depth() - 1,
                old(ctx).accesses().last().insert(
                    self.id,
                    if old(ctx).accesses().last().contains_key(self.id) {
                        old(ctx).accesses().last()[self.id].insert(X::spec_level())
                    } else {
                        set![X::spec_level()]
                    },
                ),
            ),
            Some(r) == mapping_of(old(ctx).local_bindings(), registry.fields(), self.id),
    {
        self.id.at_opt::<X>(ctx, registry).unwrap()
    }
}

} // verus!
