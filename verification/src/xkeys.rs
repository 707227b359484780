//! Keyboard-mapping arithmetic for the X11 injector.
//!
//! An X keyboard mapping is a row of keysyms per keycode: index 0 is the plain
//! key, index 1 the same key with Shift, and further pairs belong to other
//! layout groups. Typing a character means finding a keycode whose row produces
//! it, and knowing whether Shift is part of the deal; characters that the layout
//! lacks are typed by giving an unused keycode that keysym for a while.
use std::collections::HashMap;
use vstd::prelude::*;

use crate::text::code_point;

verus! {

broadcast use vstd::std_specs::hash::group_hash_axioms;

/// What the server's keyboard mapping can produce, and what it leaves free.
pub struct Layout {
    by_sym: HashMap<u32, (u8, bool)>,
    free: Vec<u8>,
}

/// The keysym of row `i` at `level`, or 0 where the table has none.
pub open spec fn cell(table: Seq<u32>, per: int, i: int, level: int) -> u32 {
    if 0 <= level < per && 0 <= i * per + level < table.len() {
        table[i * per + level]
    } else {
        0
    }
}

/// How many keycodes the table describes: as many rows as it starts, up to
/// keycode 255.
pub open spec fn row_count(min: int, per: int, table: Seq<u32>) -> int {
    if per <= 0 {
        0
    } else {
        let rows = (table.len() + per - 1) / per;
        if rows <= 256 - min {
            rows
        } else {
            256 - min
        }
    }
}

/// The key for `sym` among the first `n` rows: the first that has it plain, else
/// the first that has it with Shift.
pub open spec fn key_for(min: int, per: int, table: Seq<u32>, n: int, sym: u32) -> Option<(u8, bool)>
    decreases n,
{
    if n <= 0 || sym == 0 {
        None
    } else {
        let before = key_for(min, per, table, n - 1, sym);
        let here = (min + n - 1) as u8;
        if cell(table, per, n - 1, 0) == sym && !(before matches Some((_, false))) {
            Some((here, false))
        } else if cell(table, per, n - 1, 1) == sym && before is None {
            Some((here, true))
        } else {
            before
        }
    }
}

/// Whether a row holds no keysym at all.
pub open spec fn empty_row(table: Seq<u32>, per: int, i: int) -> bool {
    forall|level: int| 0 <= level < per ==> (#[trigger] cell(table, per, i, level)) == 0
}

/// The keycodes among the first `n` rows that carry nothing, in order.
pub open spec fn empty_keys(min: int, per: int, table: Seq<u32>, n: int) -> Seq<u8>
    decreases n,
{
    if n <= 0 {
        Seq::empty()
    } else {
        let before = empty_keys(min, per, table, n - 1);
        if empty_row(table, per, n - 1) {
            before.push((min + n - 1) as u8)
        } else {
            before
        }
    }
}

proof fn lemma_row_step(i: int, per: int)
    ensures
        (i + 1) * per == i * per + per,
        0 * per == 0,
{
    assert((i + 1) * per == i * per + per) by (nonlinear_arith);
}

proof fn lemma_row_count(len: int, per: int, i: int, offset: int)
    requires
        per > 0,
        i >= 0,
        offset == i * per,
    ensures
        offset < len ==> i < (len + per - 1) / per,
        offset >= len && (i == 0 || (i - 1) * per < len) && len >= 0 ==> i == (len + per - 1) / per,
{
    if offset < len {
        assert(i < (len + per - 1) / per) by (nonlinear_arith)
            requires
                i * per < len,
                per > 0,
        ;
    } else if (i == 0 || (i - 1) * per < len) && len >= 0 {
        let q = (len + per - 1) / per;
        assert(q * per <= len + per - 1 && len + per - 1 < (q + 1) * per) by (nonlinear_arith)
            requires
                q == (len + per - 1) / per,
                per > 0,
        ;
        assert(i <= q) by (nonlinear_arith)
            requires
                i == 0 || (i - 1) * per < len,
                len + per - 1 < (q + 1) * per,
                per > 0,
                len >= 0,
        ;
        assert(q <= i) by (nonlinear_arith)
            requires
                i * per >= len,
                q * per <= len + per - 1,
                per > 0,
        ;
    }
}

impl Layout {
    /// The key that produces `sym`, and whether Shift must be held.
    pub closed spec fn key(&self, sym: u32) -> Option<(u8, bool)> {
        if self.by_sym@.dom().contains(sym) {
            Some(self.by_sym@[sym])
        } else {
            None
        }
    }

    /// The keycodes that carry no keysym.
    pub closed spec fn spare(&self) -> Seq<u8> {
        self.free@
    }

    /// `keysyms` is the flat table that the server returns for keycodes `min..`,
    /// `per` entries each.
    pub fn from_mapping(min: u8, per: usize, keysyms: &[u32]) -> (r: Self)
        ensures
            forall|sym: u32| #[trigger]
                r.key(sym) == key_for(
                    min as int,
                    per as int,
                    keysyms@,
                    row_count(min as int, per as int, keysyms@),
                    sym,
                ),
            r.spare() == empty_keys(
                min as int,
                per as int,
                keysyms@,
                row_count(min as int, per as int, keysyms@),
            ),
    {
        let mut out = Layout { by_sym: HashMap::new(), free: Vec::new() };
        if per == 0 {
            return out;
        }
        let mut i: usize = 0;
        let mut offset: usize = 0;
        proof {
            lemma_row_step(0, per as int);
        }
        while offset < keysyms.len() && min as usize + i <= 255
            invariant
                per > 0,
                offset <= keysyms.len(),
                min + i <= 256,
                offset == i * per || (offset == keysyms.len() && offset <= i * per),
                i > 0 ==> (i - 1) * per < keysyms.len(),
                forall|sym: u32| #[trigger]
                    out.key(sym) == key_for(min as int, per as int, keysyms@, i as int, sym),
                out.free@ == empty_keys(min as int, per as int, keysyms@, i as int),
            decreases keysyms.len() - offset,
        {
            let kc: u8 = (min as usize + i) as u8;
            let room: usize = keysyms.len() - offset;
            let width: usize = if room < per {
                room
            } else {
                per
            };
            let ghost table = keysyms@;
            let ghost before = out;
            let mut empty = true;
            let mut j: usize = 0;
            while j < width && empty
                invariant
                    j <= width <= per,
                    offset == i * per,
                    offset + width <= keysyms.len(),
                    table == keysyms@,
                    empty == forall|l: int|
                        0 <= l < j ==> (#[trigger] cell(table, per as int, i as int, l)) == 0,
                decreases width - j,
            {
                assert(cell(table, per as int, i as int, j as int) == keysyms[offset + j]);
                if keysyms[offset + j] != 0 {
                    empty = false;
                }
                j = j + 1;
            }
            assert(empty == empty_row(table, per as int, i as int)) by {
                if empty {
                    assert forall|l: int| 0 <= l < per implies (#[trigger] cell(
                        table,
                        per as int,
                        i as int,
                        l,
                    )) == 0 by {
                        if l >= width {
                            assert(width == room);
                        }
                    }
                }
            }
            if empty {
                out.free.push(kc);
                assert(cell(table, per as int, i as int, 0) == 0);
                assert(per > 1 ==> cell(table, per as int, i as int, 1) == 0);
            } else {
                let plain: u32 = keysyms[offset];
                let shifted: u32 = if width > 1 {
                    keysyms[offset + 1]
                } else {
                    0
                };
                assert(plain == cell(table, per as int, i as int, 0));
                assert(shifted == cell(table, per as int, i as int, 1));
                if plain != 0 {
                    let better: bool = match out.by_sym.get(&plain) {
                        None => true,
                        Some(have) => have.1,
                    };
                    if better {
                        out.by_sym.insert(plain, (kc, false));
                    }
                }
                if shifted != 0 {
                    let better: bool = out.by_sym.get(&shifted).is_none();
                    if better {
                        out.by_sym.insert(shifted, (kc, true));
                    }
                }
            }
            proof {
                assert forall|sym: u32| #[trigger]
                    out.key(sym) == key_for(min as int, per as int, table, i + 1, sym) by {
                    let prev = before.key(sym);
                    assert(prev == key_for(min as int, per as int, table, i as int, sym));
                }
                lemma_row_step(i as int, per as int);
            }
            i = i + 1;
            offset = offset + width;
        }
        proof {
            let len = keysyms@.len() as int;
            if offset < len {
                lemma_row_count(len, per as int, i as int, offset as int);
                lemma_row_count(len, per as int, i as int, i * per);
            } else {
                lemma_row_count(len, per as int, i as int, i * per);
            }
        }
        out
    }

    /// The keycode that produces `sym`, and whether Shift must be held.
    pub fn lookup(&self, sym: u32) -> (r: Option<(u8, bool)>)
        ensures
            r == self.key(sym),
    {
        match self.by_sym.get(&sym) {
            Some(k) => Some(*k),
            None => None,
        }
    }

    /// The keycodes that carry no keysym.
    pub fn free_keycodes(&self) -> (r: &[u8])
        ensures
            r@ == self.spare(),
    {
        self.free.as_slice()
    }
}

/// A key that produces `sym` plainly comes before any that needs Shift, an
/// earlier keycode before a later one, and a `sym` that no reachable level
/// carries has no key.
pub proof fn a_plain_key_comes_first(min: int, per: int, table: Seq<u32>, n: int, sym: u32)
    requires
        0 <= min,
        min + n <= 256,
        sym != 0,
    ensures
        match key_for(min, per, table, n, sym) {
            Some((kc, false)) => min <= kc < min + n && cell(table, per, kc - min, 0) == sym
                && forall|j: int|
                0 <= j < kc - min ==> (#[trigger] cell(table, per, j, 0)) != sym,
            Some((kc, true)) => min <= kc < min + n && cell(table, per, kc - min, 1) == sym && (
            forall|j: int| 0 <= j < n ==> (#[trigger] cell(table, per, j, 0)) != sym) && (
            forall|j: int|
                0 <= j < kc - min ==> (#[trigger] cell(table, per, j, 1)) != sym),
            None => (forall|j: int| 0 <= j < n ==> (#[trigger] cell(table, per, j, 0)) != sym) && (
            forall|j: int| 0 <= j < n ==> (#[trigger] cell(table, per, j, 1)) != sym),
        },
    decreases n,
{
    if n > 0 {
        a_plain_key_comes_first(min, per, table, n - 1, sym);
        assert(cell(table, per, n - 1, 0) == sym || cell(table, per, n - 1, 0) != sym);
    }
}

/// Spare keycodes for characters that the layout does not have.
///
/// A pool used round-robin leaves each mapping in place until the keycode comes
/// round again, many characters later, so that a client that reads the map late
/// still finds the keysym it was sent.
pub struct ScratchPool {
    slots: Vec<(u8, u32)>,
    next: usize,
}

/// The slots of a pool, each a keycode with the keysym mapped to it (0 for none
/// yet), and the slot that gives way next.
pub struct PoolState {
    pub slots: Seq<(u8, u32)>,
    pub next: int,
}

/// The first slot that carries `sym`, at or after `from`.
pub open spec fn slot_with(slots: Seq<(u8, u32)>, sym: u32, from: int) -> Option<int>
    decreases slots.len() - from,
{
    if from < 0 || from >= slots.len() {
        None
    } else if slots[from].1 == sym {
        Some(from)
    } else {
        slot_with(slots, sym, from + 1)
    }
}

proof fn lemma_slot_with(slots: Seq<(u8, u32)>, sym: u32, from: int)
    requires
        0 <= from <= slots.len(),
    ensures
        match slot_with(slots, sym, from) {
            Some(i) => from <= i < slots.len() && slots[i].1 == sym && forall|j: int|
                from <= j < i ==> (#[trigger] slots[j]).1 != sym,
            None => forall|j: int| from <= j < slots.len() ==> (#[trigger] slots[j]).1 != sym,
        },
    decreases slots.len() - from,
{
    if from < slots.len() && slots[from].1 != sym {
        lemma_slot_with(slots, sym, from + 1);
    }
}

impl PoolState {
    /// The slot that gives way next is one of the pool.
    pub open spec fn wf(self) -> bool {
        self.slots.len() == 0 || 0 <= self.next < self.slots.len()
    }

    /// The slot that `sym` is typed on.
    pub open spec fn chosen(self, sym: u32) -> int {
        match slot_with(self.slots, sym, 0) {
            Some(i) => i,
            None => self.next,
        }
    }

    /// The pool after `sym` was typed.
    pub open spec fn after(self, sym: u32) -> PoolState {
        if self.slots.len() == 0 || slot_with(self.slots, sym, 0) is Some {
            self
        } else {
            PoolState {
                slots: self.slots.update(self.next, (self.slots[self.next].0, sym)),
                next: (self.next + 1) % (self.slots.len() as int),
            }
        }
    }

    /// The pool after all of `syms` were typed in order.
    pub open spec fn after_all(self, syms: Seq<u32>) -> PoolState
        decreases syms.len(),
    {
        if syms.len() == 0 {
            self
        } else {
            self.after_all(syms.drop_last()).after(syms.last())
        }
    }
}

/// The keycodes of the slots that carry a keysym, in order.
pub open spec fn carrying(slots: Seq<(u8, u32)>) -> Seq<u8>
    decreases slots.len(),
{
    if slots.len() == 0 {
        Seq::empty()
    } else if slots.last().1 != 0 {
        carrying(slots.drop_last()).push(slots.last().0)
    } else {
        carrying(slots.drop_last())
    }
}

impl View for ScratchPool {
    type V = PoolState;

    closed spec fn view(&self) -> PoolState {
        PoolState { slots: self.slots@, next: self.next as int }
    }
}

impl ScratchPool {
    /// A pool of the first `size` free keycodes, none of them mapped yet.
    pub fn new(free: &[u8], size: usize) -> (r: Self)
        ensures
            r@.wf(),
            r@.next == 0,
            r@.slots == Seq::new(
                (if free@.len() <= size { free@.len() } else { size as nat }),
                |i: int| (free@[i], 0u32),
            ),
    {
        let mut slots: Vec<(u8, u32)> = Vec::new();
        let mut i: usize = 0;
        while i < free.len() && i < size
            invariant
                i <= free.len(),
                i <= size,
                slots@ == Seq::new(i as nat, |j: int| (free@[j], 0u32)),
            decreases free.len() - i,
        {
            slots.push((free[i], 0));
            i = i + 1;
            assert(slots@ =~= Seq::new(i as nat, |j: int| (free@[j], 0u32)));
        }
        ScratchPool { slots, next: 0 }
    }

    /// Whether there is no spare keycode.
    pub fn is_empty(&self) -> (r: bool)
        ensures
            r == (self@.slots.len() == 0),
    {
        self.slots.len() == 0
    }

    /// The keycode to press for `sym`, and whether it must be mapped to `sym`
    /// first (false when a slot already carries it).
    pub fn slot_for(&mut self, sym: u32) -> (r: Option<(u8, bool)>)
        requires
            old(self)@.wf(),
        ensures
            final(self)@.wf(),
            final(self)@ == old(self)@.after(sym),
            match r {
                None => old(self)@.slots.len() == 0,
                Some((kc, remap)) => old(self)@.slots.len() > 0 && kc == old(self)@.slots[old(
                    self,
                )@.chosen(sym)].0 && remap == (slot_with(old(self)@.slots, sym, 0) is None),
            },
    {
        if self.slots.len() == 0 {
            return None;
        }
        let mut i: usize = 0;
        while i < self.slots.len()
            invariant
                i <= self.slots.len(),
                self.slots.len() > 0,
                *self == *old(self),
                self@.wf(),
                slot_with(self.slots@, sym, 0) == slot_with(self.slots@, sym, i as int),
            decreases self.slots.len() - i,
        {
            if self.slots[i].1 == sym {
                return Some((self.slots[i].0, false));
            }
            i = i + 1;
        }
        let at: usize = self.next;
        let kc: u8 = self.slots[at].0;
        self.next = if at + 1 == self.slots.len() {
            0
        } else {
            at + 1
        };
        self.slots.set(at, (kc, sym));
        proof {
            let n = self.slots@.len() as int;
            if at + 1 == n {
                assert((at + 1) % n == 0) by (nonlinear_arith)
                    requires
                        at + 1 == n,
                        n > 0,
                ;
            } else {
                assert((at + 1) % n == at + 1) by (nonlinear_arith)
                    requires
                        0 <= at + 1 < n,
                ;
            }
        }
        Some((kc, true))
    }

    /// Every keycode that currently carries a keysym, for putting back.
    pub fn mapped(&self) -> (r: Vec<u8>)
        ensures
            r@ == carrying(self@.slots),
    {
        let mut out: Vec<u8> = Vec::new();
        let mut i: usize = 0;
        assert(self.slots@.take(0) =~= Seq::<(u8, u32)>::empty());
        while i < self.slots.len()
            invariant
                i <= self.slots.len(),
                out@ == carrying(self.slots@.take(i as int)),
            decreases self.slots.len() - i,
        {
            assert(self.slots@.take(i + 1).drop_last() =~= self.slots@.take(i as int));
            if self.slots[i].1 != 0 {
                out.push(self.slots[i].0);
            }
            i = i + 1;
        }
        assert(self.slots@.take(i as int) =~= self.slots@);
        out
    }
}

/// Once typed, a character stays on its key: typing it again needs no remap and
/// presses the same keycode.
pub proof fn a_mapped_character_is_reused(pool: PoolState, sym: u32)
    requires
        pool.wf(),
        pool.slots.len() > 0,
    ensures
        pool.after(sym).slots[pool.chosen(sym)].1 == sym,
        pool.after(sym).slots[pool.chosen(sym)].0 == pool.slots[pool.chosen(sym)].0,
        slot_with(pool.after(sym).slots, sym, 0) == Some(pool.chosen(sym)),
        pool.after(sym).after(sym) == pool.after(sym),
{
    lemma_slot_with(pool.slots, sym, 0);
    lemma_slot_with(pool.after(sym).slots, sym, 0);
    let got = slot_with(pool.after(sym).slots, sym, 0);
    assert(pool.after(sym).slots[pool.chosen(sym)].1 == sym);
    assert(got is Some);
    if slot_with(pool.slots, sym, 0) is None {
        let i = got->0;
        if i != pool.next {
            assert(pool.after(sym).slots[i] == pool.slots[i]);
        }
    }
}

/// A mapping stays in place while fewer other characters are typed than the
/// pool has keys: the slot just used is the last to come round again.
pub proof fn a_mapping_outlives_a_round(pool: PoolState, sym: u32, syms: Seq<u32>)
    requires
        pool.wf(),
        pool.slots.len() > 0,
        slot_with(pool.slots, sym, 0) is None,
        syms.len() < pool.slots.len(),
    ensures
        pool.after(sym).after_all(syms).slots[pool.next] == (pool.slots[pool.next].0, sym),
{
    lemma_round(pool, sym, syms);
}

proof fn lemma_round(pool: PoolState, sym: u32, syms: Seq<u32>) -> (used: int)
    requires
        pool.wf(),
        pool.slots.len() > 0,
        slot_with(pool.slots, sym, 0) is None,
        syms.len() < pool.slots.len(),
    ensures
        0 <= used <= syms.len(),
        pool.after(sym).after_all(syms).slots.len() == pool.slots.len(),
        pool.after(sym).after_all(syms).next == (pool.next + 1 + used) % (pool.slots.len() as int),
        pool.after(sym).after_all(syms).slots[pool.next] == (pool.slots[pool.next].0, sym),
    decreases syms.len(),
{
    let n = pool.slots.len() as int;
    if syms.len() == 0 {
        0
    } else {
        let used = lemma_round(pool, sym, syms.drop_last());
        let mid = pool.after(sym).after_all(syms.drop_last());
        let at = (pool.next + 1 + used) % n;
        assert(at != pool.next && 0 <= at < n && (at + 1) % n == (pool.next + 1 + used + 1) % n)
            by (nonlinear_arith)
            requires
                0 <= pool.next < n,
                0 <= used < n - 1,
                at == (pool.next + 1 + used) % n,
        {
            if pool.next + 1 + used < n {
                assert(at == pool.next + 1 + used);
            } else {
                assert(at == pool.next + 1 + used - n);
                assert((pool.next + 1 + used + 1) % n == (pool.next + 1 + used + 1 - n) % n);
            }
        }
        if mid.slots.len() == 0 || slot_with(mid.slots, syms.last(), 0) is Some {
            used
        } else {
            used + 1
        }
    }
}

/// When a slot of a pool was mapped last, as `syms` were typed in order: the place of that
/// keysym among them. Slots that were never mapped come before any that was, in the order of
/// the pool.
pub open spec fn last_mapped(start: PoolState, syms: Seq<u32>, slot: int) -> int
    decreases syms.len(),
{
    if syms.len() == 0 {
        slot - start.slots.len()
    } else {
        let before = start.after_all(syms.drop_last());
        if slot_with(before.slots, syms.last(), 0) is None && slot == before.next {
            syms.len() - 1
        } else {
            last_mapped(start, syms.drop_last(), slot)
        }
    }
}

/// Whether a pool is as it was made.
pub open spec fn untouched(pool: PoolState) -> bool {
    pool.next == 0 && forall|i: int| 0 <= i < pool.slots.len() ==> (#[trigger] pool.slots[i]).1 == 0
}

/// How many slots give way before this one does.
pub open spec fn turn_of(pool: PoolState, slot: int) -> int {
    if slot >= pool.next {
        slot - pool.next
    } else {
        slot - pool.next + pool.slots.len()
    }
}

proof fn lemma_turns(start: PoolState, syms: Seq<u32>)
    requires
        start.slots.len() > 0,
        untouched(start),
        forall|k: int| 0 <= k < syms.len() ==> #[trigger] syms[k] != 0,
    ensures
        ({
            let p = start.after_all(syms);
            &&& p.wf()
            &&& p.slots.len() == start.slots.len()
            &&& forall|i: int|
                0 <= i < p.slots.len() ==> (#[trigger] p.slots[i]).0 == start.slots[i].0
            &&& forall|i: int|
                #![trigger last_mapped(start, syms, i)]
                0 <= i < p.slots.len() ==> last_mapped(start, syms, i) < syms.len()
            &&& forall|i: int, j: int|
                #![trigger last_mapped(start, syms, i), last_mapped(start, syms, j)]
                0 <= i < p.slots.len() && 0 <= j < p.slots.len() && turn_of(p, i) < turn_of(p, j)
                    ==> last_mapped(start, syms, i) < last_mapped(start, syms, j)
            &&& forall|i: int, j: int|
                0 <= i < j < p.slots.len() && (#[trigger] p.slots[i]).1 != 0 ==> p.slots[i].1 != (
                #[trigger] p.slots[j]).1
        }),
    decreases syms.len(),
{
    if syms.len() > 0 {
        let rest = syms.drop_last();
        assert forall|k: int| 0 <= k < rest.len() implies #[trigger] rest[k] != 0 by {
            assert(rest[k] == syms[k]);
        }
        lemma_turns(start, rest);
        let b = start.after_all(rest);
        let p = start.after_all(syms);
        let n = b.slots.len() as int;
        lemma_slot_with(b.slots, syms.last(), 0);
        if slot_with(b.slots, syms.last(), 0) is None {
            if b.next + 1 == n {
                assert((b.next + 1) % n == 0) by (nonlinear_arith)
                    requires
                        b.next + 1 == n,
                        n > 0,
                ;
            } else {
                assert((b.next + 1) % n == b.next + 1) by (nonlinear_arith)
                    requires
                        0 <= b.next + 1 < n,
                ;
            }
            assert forall|i: int, j: int|
                #![trigger last_mapped(start, syms, i), last_mapped(start, syms, j)]
                0 <= i < n && 0 <= j < n && turn_of(p, i) < turn_of(p, j) implies last_mapped(
                start,
                syms,
                i,
            ) < last_mapped(start, syms, j) by {
                let _ = last_mapped(start, rest, i);
                let _ = last_mapped(start, rest, j);
                if j != b.next {
                    assert(i != b.next);
                    assert(turn_of(b, i) < turn_of(b, j));
                }
            }
            assert forall|i: int| #![trigger last_mapped(start, syms, i)] 0 <= i < n implies last_mapped(start, syms, i)
                < syms.len() by {
                let _ = last_mapped(start, rest, i);
            }
            assert forall|i: int, j: int|
                0 <= i < j < n && (#[trigger] p.slots[i]).1 != 0 implies p.slots[i].1 != (
            #[trigger] p.slots[j]).1 by {
                let _ = b.slots[i];
                let _ = b.slots[j];
            }
        } else {
            assert(p == b);
            assert forall|i: int| #![trigger last_mapped(start, syms, i)] 0 <= i < n implies last_mapped(start, syms, i)
                == last_mapped(start, rest, i) by {}
        }
    }
}

/// The slot that gives way is the one mapped longest ago, unused ones first and in order.
pub proof fn the_oldest_mapping_gives_way(start: PoolState, syms: Seq<u32>, slot: int)
    requires
        untouched(start),
        forall|k: int| 0 <= k < syms.len() ==> #[trigger] syms[k] != 0,
        0 <= slot < start.slots.len(),
        slot != start.after_all(syms).next,
    ensures
        last_mapped(start, syms, start.after_all(syms).next) < last_mapped(start, syms, slot),
{
    lemma_turns(start, syms);
    let p = start.after_all(syms);
    assert(turn_of(p, p.next) < turn_of(p, slot));
}

/// No keysym is ever on two keycodes of a pool, and its keycodes stay what they are.
pub proof fn a_keysym_is_on_one_keycode(start: PoolState, syms: Seq<u32>, i: int, j: int)
    requires
        untouched(start),
        forall|k: int| 0 <= k < syms.len() ==> #[trigger] syms[k] != 0,
        0 <= i < start.slots.len(),
        0 <= j < start.slots.len(),
        i != j,
    ensures
        ({
            let slots = start.after_all(syms).slots;
            &&& slots.len() == start.slots.len()
            &&& slots[i].0 == start.slots[i].0
            &&& slots[i].1 != 0 ==> slots[i].1 != slots[j].1
        }),
{
    lemma_turns(start, syms);
    let slots = start.after_all(syms).slots;
    if i < j {
        assert(slots[i].1 != 0 ==> slots[i].1 != slots[j].1);
    } else {
        assert(slots[j].1 != 0 ==> slots[j].1 != slots[i].1);
    }
}

/// Latin-1 and ASCII map to their code point; everything else uses the Unicode
/// keysym range of the X protocol.
pub open spec fn keysym_of_char(ch: char) -> int {
    if (ch as int) < 0x100 {
        ch as int
    } else {
        ch as int + 0x0100_0000
    }
}

/// The X keysym of a character.
pub fn char_keysym(ch: char) -> (r: u32)
    ensures
        r == keysym_of_char(ch),
{
    let c: u32 = code_point(ch);
    if c < 0x100 {
        c
    } else {
        c + 0x0100_0000
    }
}

/// Two characters never share a keysym.
pub proof fn keysyms_tell_characters_apart(a: char, b: char)
    ensures
        keysym_of_char(a) == keysym_of_char(b) ==> a == b,
{
    assert(a as int <= 0x10FFFF);
}

/// The keyboard table is read row by row: one row for each keycode from the first on, with the
/// plain key before the one with Shift, as many rows as the table begins.
pub proof fn the_table_has_a_row_for_each_key(min: int, per: int, table: Seq<u32>, i: int)
    requires
        0 <= min <= 255,
        per > 0,
        0 <= i,
        (i + 1) * per <= table.len(),
    ensures
        forall|level: int|
            0 <= level < per ==> #[trigger] cell(table, per, i, level) == table.subrange(
                i * per,
                i * per + per,
            )[level],
        row_count(min, per, table) <= 256 - min,
        row_count(min, per, table) < 256 - min ==> (row_count(min, per, table) - 1) * per
            < table.len() <= row_count(min, per, table) * per,
        row_count(min, per, table) == 256 - min ==> table.len() > (255 - min) * per,
{
    assert((i + 1) * per == i * per + per && i * per >= 0) by (nonlinear_arith)
        requires
            i >= 0,
            per > 0,
    ;
    let rows = (table.len() + per - 1) / per;
    vstd::arithmetic::div_mod::lemma_fundamental_div_mod(table.len() + per - 1, per);
    assert((rows - 1) * per < table.len() <= rows * per) by (nonlinear_arith)
        requires
            table.len() + per - 1 == per * rows + (table.len() + per - 1) % per,
            0 <= (table.len() + per - 1) % per < per,
    ;
    if rows >= 256 - min {
        assert((255 - min) * per <= (rows - 1) * per) by (nonlinear_arith)
            requires
                255 - min <= rows - 1,
                per > 0,
        ;
    }
}

/// The spare keycodes are those that carry nothing at any level, in order and once each.
pub proof fn spare_keys_carry_nothing(min: int, per: int, table: Seq<u32>, n: int, kc: u8)
    requires
        0 <= min,
        0 <= n,
        min + n <= 256,
    ensures
        empty_keys(min, per, table, n).contains(kc) <==> min <= kc < min + n && forall|level: int|
            0 <= level < per ==> (#[trigger] cell(table, per, kc - min, level)) == 0,
        forall|a: int, b: int|
            0 <= a < b < empty_keys(min, per, table, n).len() ==> #[trigger] empty_keys(
                min,
                per,
                table,
                n,
            )[a] < #[trigger] empty_keys(min, per, table, n)[b],
        forall|a: int|
            0 <= a < empty_keys(min, per, table, n).len() ==> #[trigger] empty_keys(
                min,
                per,
                table,
                n,
            )[a] < min + n,
    decreases n,
{
    if n > 0 {
        spare_keys_carry_nothing(min, per, table, n - 1, kc);
        let before = empty_keys(min, per, table, n - 1);
        let here = (min + n - 1) as u8;
        assert(here - min == n - 1);
        assert(kc == here ==> (empty_row(table, per, n - 1) <==> empty_row(table, per, kc - min)));
        assert(empty_row(table, per, kc - min) <==> forall|level: int|
            0 <= level < per ==> (#[trigger] cell(table, per, kc - min, level)) == 0);
        if empty_row(table, per, n - 1) {
            let after = before.push(here);
            assert(after == empty_keys(min, per, table, n));
            assert(after[before.len() as int] == here);
            if before.contains(kc) {
                let i = choose|i: int| 0 <= i < before.len() && before[i] == kc;
                assert(after[i] == kc);
            }
            if after.contains(kc) && kc != here {
                let i = choose|i: int| 0 <= i < after.len() && after[i] == kc;
                assert(before[i] == kc);
            }
        }
    }
}

/// A keysym that is mapped already is found on the first slot that carries it, and the
/// keycodes to put back are those of all slots that carry one.
pub proof fn mapped_slots_are_found(slots: Seq<(u8, u32)>, sym: u32, from: int)
    requires
        0 <= from,
    ensures
        match slot_with(slots, sym, from) {
            Some(i) => from <= i < slots.len() && slots[i].1 == sym && forall|j: int|
                from <= j < i ==> (#[trigger] slots[j]).1 != sym,
            None => forall|j: int| from <= j < slots.len() ==> (#[trigger] slots[j]).1 != sym,
        },
    decreases slots.len() - from,
{
    if from < slots.len() && slots[from].1 != sym {
        mapped_slots_are_found(slots, sym, from + 1);
    }
}

/// The keycodes to put back are those of the slots that carry a keysym, in order.
pub proof fn every_mapped_key_is_put_back(slots: Seq<(u8, u32)>)
    ensures
        carrying(slots) == slots.filter(|s: (u8, u32)| s.1 != 0).map_values(|s: (u8, u32)| s.0),
    decreases slots.len(),
{
    reveal(Seq::filter);
    if slots.len() > 0 {
        every_mapped_key_is_put_back(slots.drop_last());
    }
    assert(carrying(slots) =~= slots.filter(|s: (u8, u32)| s.1 != 0).map_values(
        |s: (u8, u32)| s.0,
    ));
}

/// The keysym of a character holds its code point: alone up to the end of Latin-1, and behind
/// the mark of the Unicode range from there on.
pub proof fn a_keysym_holds_the_code_point(ch: char)
    ensures
        keysym_of_char(ch) % 0x0100_0000 == ch as int,
        keysym_of_char(ch) / 0x0100_0000 == if ch as int <= 0xff {
            0int
        } else {
            1
        },
{
}

} // verus!
