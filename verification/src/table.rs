//! Fixed-capacity symbol statistics: a bump-allocated byte arena for
//! decoded symbol names and an open-addressing hash table with linear
//! probing that maps each symbol to a running count and traded volume.
//!
//! A slot moves through three states and no others: empty (`key_hash`
//! zero), claimed (`key_hash` set, `meta` still zero) and published
//! (`meta` set, pointing at the arena bytes of the key). A claimed slot
//! stays behind only when arena allocation failed while inserting; it is
//! skipped by snapshots. Once published, a slot's key bytes never change.

use vstd::prelude::*;

verus! {

use crate::{ESCAPE, ParseErrorKind};
use crate::escape::{EscapedValue, decoded};
use crate::strutil::utf8_lossy;
use vstd::wrapping::u64_specs;

/// The largest byte budget an arena accepts: offsets and lengths must
/// fit the 32-bit halves of a packed slot descriptor.
pub const ARENA_MAX_BYTES: usize = 0xFFFF_FFFF;

/// A monotonic bump allocator over a fixed-size byte buffer. Allocated
/// ranges never overlap and are never reused or freed.
struct Arena {
    buf: Vec<u8>,
    next: usize,
}

impl Arena {
    spec fn wf(&self) -> bool {
        self.next <= self.buf@.len() <= ARENA_MAX_BYTES
    }

    fn new(cap: usize) -> (r: Arena)
        requires
            cap <= ARENA_MAX_BYTES,
        ensures
            r.wf(),
            r.buf@ == Seq::new(cap as nat, |k: int| 0u8),
            r.next == 0,
    {
        let buf = vec![0u8; cap];
        proof {
            assert(buf@ =~= Seq::new(cap as nat, |k: int| 0u8));
        }
        Arena { buf, next: 0 }
    }

    /// Reserve `len` contiguous bytes. Fails, changing nothing, when
    /// `len` is zero or the buffer cannot hold `len` more bytes.
    fn reserve(&mut self, len: usize) -> (r: Option<usize>)
        requires
            old(self).wf(),
        ensures
            final(self).wf(),
            final(self).buf == old(self).buf,
            match r {
                Some(off) => len > 0 && old(self).next + len <= old(self).buf@.len() && off == old(
                    self,
                ).next && final(self).next == old(self).next + len,
                None => (len == 0 || old(self).next + len > old(self).buf@.len()) && final(self).next
                    == old(self).next,
            },
    {
        if len == 0 {
            return None;
        }
        let end = match self.next.checked_add(len) {
            Some(e) => e,
            None => {
                return None;
            },
        };
        if end > self.buf.len() {
            return None;
        }
        let off = self.next;
        self.next = end;
        Some(off)
    }

    /// A view of the byte range `[off, off + len)`, if it lies within
    /// the buffer.
    fn get(&self, off: usize, len: usize) -> (r: Option<&[u8]>)
        requires
            self.wf(),
        ensures
            match r {
                Some(s) => off + len <= self.buf@.len() && s@ == self.buf@.subrange(
                    off as int,
                    off + len,
                ),
                None => off + len > self.buf@.len(),
            },
    {
        let end = match off.checked_add(len) {
            Some(e) => e,
            None => {
                return None;
            },
        };
        if end > self.buf.len() {
            return None;
        }
        Some(&self.buf.as_slice()[off..end])
    }

    /// Copy `data` over the byte range starting at `off`.
    fn write(&mut self, off: usize, data: &[u8])
        requires
            old(self).wf(),
            off + data@.len() <= old(self).buf@.len(),
        ensures
            final(self).wf(),
            final(self).next == old(self).next,
            final(self).buf@ == old(self).buf@.subrange(0, off as int) + data@ + old(
                self,
            ).buf@.subrange(off + data@.len(), old(self).buf@.len() as int),
            final(self).buf@.len() == old(self).buf@.len(),
    {
        let mut k: usize = 0;
        while k < data.len()
            invariant
                k <= data@.len(),
                off + data@.len() <= self.buf@.len(),
                self.buf@.len() <= ARENA_MAX_BYTES,
                self.buf@.len() == old(self).buf@.len(),
                self.next == old(self).next,
                forall|t: int| 0 <= t < k ==> self.buf@[off + t] == data@[t],
                forall|t: int|
                    0 <= t < self.buf@.len() && !(off <= t < off + k) ==> self.buf@[t] == old(
                        self,
                    ).buf@[t],
            decreases data@.len() - k,
        {
            let b = data[k];
            self.buf[off + k] = b;
            k = k + 1;
        }
        proof {
            assert(self.buf@ =~= old(self).buf@.subrange(0, off as int) + data@ + old(
                self,
            ).buf@.subrange(off + data@.len(), old(self).buf@.len() as int));
        }
    }
}

/// Slot descriptor packing: offset into the arena in the upper half,
/// key length in the lower half. Zero means "not yet published".
pub open spec fn meta_off(m: u64) -> nat {
    (m / 0x1_0000_0000) as nat
}

pub open spec fn meta_len(m: u64) -> nat {
    (m % 0x1_0000_0000) as nat
}

pub open spec fn pack_meta_spec(off: nat, len: nat) -> u64 {
    (off * 0x1_0000_0000 + len) as u64
}

fn pack_meta(off: usize, len: usize) -> (m: u64)
    requires
        off <= 0xFFFF_FFFF,
        len <= 0xFFFF_FFFF,
    ensures
        m == pack_meta_spec(off as nat, len as nat),
        meta_off(m) == off,
        meta_len(m) == len,
        len > 0 ==> m != 0,
{
    let m = (off as u64) * 0x1_0000_0000u64 + (len as u64);
    proof {
        assert(m / 0x1_0000_0000 == off) by (nonlinear_arith)
            requires
                m == off * 0x1_0000_0000 + len,
                0 <= len < 0x1_0000_0000,
                0 <= off,
        ;
        assert(m % 0x1_0000_0000 == len) by (nonlinear_arith)
            requires
                m == off * 0x1_0000_0000 + len,
                0 <= len < 0x1_0000_0000,
                0 <= off,
        ;
    }
    m
}

fn unpack_meta(m: u64) -> (r: (usize, usize))
    ensures
        r.0 == meta_off(m),
        r.1 == meta_len(m),
{
    let off = m / 0x1_0000_0000u64;
    let len = m % 0x1_0000_0000u64;
    (off as usize, len as usize)
}

/// One FNV-1a step: fold the byte `b` into the running hash `h`.
pub open spec fn fnv_step(h: u64, b: u8) -> u64 {
    u64_specs::wrapping_mul(h ^ (b as u64), 0x100000001b3)
}

/// The 64-bit FNV-1a hash of `s`.
pub open spec fn fnv1a(s: Seq<u8>) -> u64
    decreases s.len(),
{
    if s.len() == 0 {
        0xcbf29ce484222325
    } else {
        fnv_step(fnv1a(s.drop_last()), s.last())
    }
}

/// The slot hash of the decoded key `k`: its FNV-1a hash, with the value
/// 0 remapped to 1 because 0 marks an empty slot.
pub open spec fn hash_of(k: Seq<u8>) -> u64 {
    if fnv1a(k) == 0 {
        1
    } else {
        fnv1a(k)
    }
}

/// Hash the decoded form of `raw` without materializing it, and return
/// its decoded length alongside.
fn hash64_and_len(raw: &[u8]) -> (r: (u64, usize))
    ensures
        r.0 == hash_of(decoded(raw@)),
        r.1 == decoded(raw@).len(),
        r.0 != 0,
{
    let ghost dec = decoded(raw@);
    let mut h: u64 = 0xcbf29ce484222325;
    let mut n: usize = 0;
    let mut i: usize = 0;
    proof {
        assert(raw@.skip(0) =~= raw@);
        assert(dec.take(0) =~= Seq::<u8>::empty());
    }
    while i < raw.len()
        invariant
            i <= raw.len(),
            n <= i,
            n == dec.len() - decoded(raw@.skip(i as int)).len(),
            n <= dec.len(),
            dec == dec.take(n as int) + decoded(raw@.skip(i as int)),
            h == fnv1a(dec.take(n as int)),
        decreases raw.len() - i,
    {
        proof {
            crate::escape::lemma_decoded_step(raw@, i as int);
        }
        let b: u8;
        if raw[i] == ESCAPE && i + 1 < raw.len() {
            b = raw[i + 1];
            i = i + 2;
        } else {
            b = raw[i];
            i = i + 1;
        }
        proof {
            assert(dec == dec.take(n as int) + (seq![b] + decoded(raw@.skip(i as int))));
            assert(dec[n as int] == b);
            assert(dec.take(n + 1) =~= dec.take(n as int).push(b));
            assert(dec.take(n + 1).drop_last() =~= dec.take(n as int));
            assert(dec =~= dec.take(n + 1) + decoded(raw@.skip(i as int)));
        }
        h = (h ^ (b as u64)).wrapping_mul(0x100000001b3);
        n = n + 1;
    }
    proof {
        assert(dec.take(n as int) =~= dec);
    }
    if h == 0 {
        (1, n)
    } else {
        (h, n)
    }
}

/// The mathematical state of one slot.
#[verifier::ext_equal]
pub ghost struct SlotV {
    pub kh: u64,
    pub meta: u64,
    pub count: u64,
    pub volume: u64,
}

/// The mathematical state of a symbol table: the slot array, the arena
/// bytes and the arena cursor.
#[verifier::ext_equal]
pub ghost struct TableV {
    pub slots: Seq<SlotV>,
    pub bytes: Seq<u8>,
    pub next: nat,
}

/// Number of slots.
pub open spec fn cap_of(t: TableV) -> int {
    t.slots.len() as int
}

/// The key bytes a slot's descriptor points at (empty for an
/// unpublished slot, whose descriptor is zero).
pub open spec fn slot_key(t: TableV, i: int) -> Seq<u8> {
    t.bytes.subrange(
        meta_off(t.slots[i].meta) as int,
        meta_off(t.slots[i].meta) + meta_len(t.slots[i].meta) as int,
    )
}

/// Is slot `i` published (claimed and pointing at its key bytes)?
pub open spec fn published(t: TableV, i: int) -> bool {
    t.slots[i].kh != 0 && t.slots[i].meta != 0
}

/// The slot where probing for hash `h` starts.
pub open spec fn home_of(t: TableV, h: u64) -> int {
    (h as int) % cap_of(t)
}

/// The slot visited at probe step `j` for hash `h`.
pub open spec fn idx_at(t: TableV, h: u64, j: int) -> int {
    (home_of(t, h) + j) % cap_of(t)
}

/// How many probe steps from `h`'s home slot reach slot `i`.
pub open spec fn dist_to(t: TableV, h: u64, i: int) -> int {
    (i - home_of(t, h) + cap_of(t)) % cap_of(t)
}

/// Internal consistency of slot `i`: empty slots are untouched, a
/// published descriptor points below the cursor at the bytes whose hash
/// the slot carries, and every slot on the probe path from the key's
/// home slot to `i` is occupied (the linear-probing invariant).
pub open spec fn slot_ok(t: TableV, i: int) -> bool {
    let s = t.slots[i];
    &&& (s.kh == 0 ==> s.meta == 0 && s.count == 0 && s.volume == 0)
    &&& (s.kh != 0 && s.meta != 0 ==> meta_off(s.meta) + meta_len(s.meta) <= t.next && meta_len(
        s.meta,
    ) > 0 && s.kh == hash_of(slot_key(t, i)))
    &&& (s.kh != 0 ==> forall|d: int|
        0 <= d < dist_to(t, s.kh, i) ==> t.slots[idx_at(t, s.kh, d)].kh != 0)
}

/// Well-formedness of a table: sane sizes, every slot internally
/// consistent, and no key published twice.
pub open spec fn table_wf(t: TableV) -> bool {
    &&& 8 <= t.slots.len()
    &&& t.next <= t.bytes.len() <= ARENA_MAX_BYTES
    &&& forall|i: int| 0 <= i < cap_of(t) ==> #[trigger] slot_ok(t, i)
    &&& forall|i: int, j: int|
        0 <= i < cap_of(t) && 0 <= j < cap_of(t) && i != j && published(t, i) && published(t, j)
            ==> slot_key(t, i) != slot_key(t, j)
}

/// What a probe scan finds: a slot already holding the key, a free slot
/// to claim, or nothing within the probe bound.
pub ghost enum Probe {
    Match { i: int },
    Free { i: int },
    Full,
}

/// The probe scan for hash `h` and decoded key `k`, starting at step
/// `j`: the first slot in probe order that either holds `k` (same hash
/// and same stored bytes) or is free; `Full` after `cap` fruitless
/// steps.
pub open spec fn probe_from(t: TableV, h: u64, k: Seq<u8>, j: nat) -> Probe
    decreases t.slots.len() - j,
{
    if j >= t.slots.len() {
        Probe::Full
    } else {
        let i = idx_at(t, h, j as int);
        let s = t.slots[i];
        if s.kh == h && slot_key(t, i) == k {
            Probe::Match { i }
        } else if s.kh == 0 {
            Probe::Free { i }
        } else {
            probe_from(t, h, k, (j + 1) as nat)
        }
    }
}

/// The probe scan for key `k`, from its home slot.
pub open spec fn probe(t: TableV, k: Seq<u8>) -> Probe {
    probe_from(t, hash_of(k), k, 0)
}

/// 64-bit wrap-around addition, as the counters use.
pub open spec fn wrap_add(a: u64, b: u64) -> u64 {
    u64_specs::wrapping_add(a, b)
}

/// The transition `record` makes for decoded key `k` and quantity
/// `qty`: a found slot has its count and volume bumped; a free slot is
/// claimed, and either published with `k` appended to the arena, or — if
/// the arena cannot take `k` — left claimed-but-unpublished with an
/// `ArenaFull` failure; a full table fails with `TableFull`, unchanged.
pub open spec fn record_spec(t: TableV, k: Seq<u8>, qty: u64) -> (TableV, Result<
    (),
    ParseErrorKind,
>) {
    match probe(t, k) {
        Probe::Match { i } => {
            let s = t.slots[i];
            (
                TableV {
                    slots: t.slots.update(
                        i,
                        SlotV {
                            kh: s.kh,
                            meta: s.meta,
                            count: wrap_add(s.count, 1),
                            volume: wrap_add(s.volume, qty),
                        },
                    ),
                    ..t
                },
                Ok(()),
            )
        },
        Probe::Free { i } => {
            let h = hash_of(k);
            if k.len() == 0 || t.next + k.len() > t.bytes.len() {
                (
                    TableV {
                        slots: t.slots.update(
                            i,
                            SlotV { kh: h, meta: 0, count: 0, volume: 0 },
                        ),
                        ..t
                    },
                    Err(ParseErrorKind::ArenaFull),
                )
            } else {
                (
                    TableV {
                        slots: t.slots.update(
                            i,
                            SlotV {
                                kh: h,
                                meta: pack_meta_spec(t.next, k.len()),
                                count: 1,
                                volume: qty,
                            },
                        ),
                        bytes: t.bytes.subrange(0, t.next as int) + k + t.bytes.subrange(
                            t.next + k.len() as int,
                            t.bytes.len() as int,
                        ),
                        next: t.next + k.len(),
                    },
                    Ok(()),
                )
            }
        },
        Probe::Full => (t, Err(ParseErrorKind::TableFull)),
    }
}

/// `(x + 1) % c` steps a wrapped index by one.
proof fn lemma_mod_step(x: int, c: int)
    requires
        c > 1,
        x >= 0,
    ensures
        0 <= x % c < c,
        (x + 1) % c == if (x % c) + 1 == c {
            0int
        } else {
            (x % c) + 1
        },
{
    vstd::arithmetic::div_mod::lemma_mod_division_less_than_divisor(x, c);
    vstd::arithmetic::div_mod::lemma_add_mod_noop(x, 1, c);
    vstd::arithmetic::div_mod::lemma_small_mod(1nat, c as nat);
    if (x % c) + 1 == c {
        vstd::arithmetic::div_mod::lemma_mod_self_0(c);
    } else {
        vstd::arithmetic::div_mod::lemma_small_mod(((x % c) + 1) as nat, c as nat);
    }
}

/// Probing from `home` reaches slot `(home + j) % c` after exactly `j`
/// steps: the probe distance inverts the probe index.
proof fn lemma_dist_of_idx(home: int, j: int, c: int)
    requires
        0 <= home < c,
        0 <= j < c,
    ensures
        0 <= (home + j) % c < c,
        ((home + j) % c - home + c) % c == j,
{
    vstd::arithmetic::div_mod::lemma_mod_division_less_than_divisor(home + j, c);
    if home + j < c {
        vstd::arithmetic::div_mod::lemma_small_mod((home + j) as nat, c as nat);
        assert((home + j) % c - home + c == j + c);
        vstd::arithmetic::div_mod::lemma_mod_add_multiples_vanish(j, c);
        vstd::arithmetic::div_mod::lemma_small_mod(j as nat, c as nat);
    } else {
        vstd::arithmetic::div_mod::lemma_mod_sub_multiples_vanish(home + j, c);
        vstd::arithmetic::div_mod::lemma_small_mod((home + j - c) as nat, c as nat);
        assert((home + j) % c == home + j - c);
        vstd::arithmetic::div_mod::lemma_small_mod(j as nat, c as nat);
    }
}

/// Distinct probe steps within one sweep visit distinct slots.
proof fn lemma_idx_injective(home: int, d1: int, d2: int, c: int)
    requires
        0 <= home < c,
        0 <= d1 < c,
        0 <= d2 < c,
        d1 != d2,
    ensures
        (home + d1) % c != (home + d2) % c,
{
    lemma_dist_of_idx(home, d1, c);
    lemma_dist_of_idx(home, d2, c);
}

/// The probe step that reaches slot `q` is its probe distance.
proof fn lemma_idx_of_dist(home: int, q: int, c: int)
    requires
        0 <= home < c,
        0 <= q < c,
    ensures
        0 <= (q - home + c) % c < c,
        (home + (q - home + c) % c) % c == q,
{
    vstd::arithmetic::div_mod::lemma_mod_division_less_than_divisor(q - home + c, c);
    if q >= home {
        vstd::arithmetic::div_mod::lemma_mod_add_multiples_vanish(q - home, c);
        vstd::arithmetic::div_mod::lemma_small_mod((q - home) as nat, c as nat);
        vstd::arithmetic::div_mod::lemma_small_mod(q as nat, c as nat);
    } else {
        vstd::arithmetic::div_mod::lemma_small_mod((q - home + c) as nat, c as nat);
        vstd::arithmetic::div_mod::lemma_mod_add_multiples_vanish(q, c);
        vstd::arithmetic::div_mod::lemma_small_mod(q as nat, c as nat);
    }
}

/// One hash-table bucket. `key_hash` 0 marks an empty slot (real hashes
/// are remapped away from 0); `meta` 0 marks a slot that is claimed but
/// whose key is not yet published.
#[derive(Clone, Copy)]
struct SymbolSlot {
    key_hash: u64,
    meta: u64,
    count: u64,
    volume: u64,
}

impl View for SymbolSlot {
    type V = SlotV;

    closed spec fn view(&self) -> SlotV {
        SlotV { kh: self.key_hash, meta: self.meta, count: self.count, volume: self.volume }
    }
}

/// The smallest table capacity used for `m` requested symbols: doubling
/// from the minimum of 8 until it covers `m`.
pub open spec fn cap_from(m: nat, c: nat) -> nat
    decreases (if c >= m || c == 0 {
        0nat
    } else {
        (m - c) as nat
    }),
{
    if c >= m || c == 0 {
        c
    } else {
        cap_from(m, 2 * c)
    }
}

pub open spec fn cap_for(m: nat) -> nat {
    cap_from(m, 8)
}

/// The largest symbol capacity a table accepts, so that the slot array
/// fits the address space on any supported platform.
pub const TABLE_MAX_SYMBOLS: usize = 0x4000_0000;

/// A fixed-capacity open-addressing hash table over decoded symbol
/// names, with linear probing, mapping each name to a running count and
/// traded volume. Key bytes live in a bump-allocated arena.
pub struct SymbolTable {
    slots: Vec<SymbolSlot>,
    arena: Arena,
}

impl View for SymbolTable {
    type V = TableV;

    closed spec fn view(&self) -> TableV {
        TableV {
            slots: self.slots@.map_values(|s: SymbolSlot| s@),
            bytes: self.arena.buf@,
            next: self.arena.next as nat,
        }
    }
}

impl SymbolTable {
    /// A table for up to `max_symbols` distinct symbols (rounded up to a
    /// power of two, at least 8) whose decoded names fit in `arena_bytes`
    /// bytes in all.
    pub fn new(max_symbols: usize, arena_bytes: usize) -> (r: SymbolTable)
        requires
            max_symbols <= TABLE_MAX_SYMBOLS,
            arena_bytes <= ARENA_MAX_BYTES,
        ensures
            table_wf(r@),
            r@.slots.len() == cap_for(max_symbols as nat),
            r@.next == 0,
            r@.bytes.len() == arena_bytes,
            forall|i: int|
                0 <= i < cap_of(r@) ==> r@.slots[i] == (SlotV {
                    kh: 0,
                    meta: 0,
                    count: 0,
                    volume: 0,
                }),
    {
        let mut cap: usize = 8;
        while cap < max_symbols
            invariant
                8 <= cap <= TABLE_MAX_SYMBOLS * 2,
                cap_from(max_symbols as nat, cap as nat) == cap_for(max_symbols as nat),
                max_symbols <= TABLE_MAX_SYMBOLS,
            decreases (if cap >= max_symbols { 0int } else { max_symbols - cap }),
        {
            cap = cap * 2;
        }
        let mut slots: Vec<SymbolSlot> = Vec::new();
        while slots.len() < cap
            invariant
                slots@.len() <= cap,
                forall|i: int|
                    0 <= i < slots@.len() ==> slots@[i]@ == (SlotV {
                        kh: 0,
                        meta: 0,
                        count: 0,
                        volume: 0,
                    }),
            decreases cap - slots.len(),
        {
            slots.push(SymbolSlot { key_hash: 0, meta: 0, count: 0, volume: 0 });
        }
        let arena = Arena::new(arena_bytes);
        let r = SymbolTable { slots, arena };
        proof {
            assert(forall|i: int|
                0 <= i < cap_of(r@) ==> r@.slots[i] == (SlotV {
                    kh: 0,
                    meta: 0,
                    count: 0,
                    volume: 0,
                }));
            assert(forall|i: int| 0 <= i < cap_of(r@) ==> #[trigger] slot_ok(r@, i));
        }
        r
    }

    /// Record one trade of `qty` units for the symbol whose raw (still
    /// escaped) spelling is `symbol`. The whole transition — which slot
    /// is found or claimed, what the table looks like afterwards, and
    /// which error comes back when no room is left — is `record_spec`,
    /// applied to the decoded symbol bytes, so any two spellings with
    /// the same decoded form behave identically.
    #[verifier::rlimit(60)]
    pub fn record(&mut self, symbol: &EscapedValue<'_>, qty: u64) -> (r: Result<
        (),
        ParseErrorKind,
    >)
        requires
            table_wf(old(self)@),
        ensures
            table_wf(final(self)@),
            final(self)@ == record_spec(old(self)@, decoded(symbol@), qty).0,
            r == record_spec(old(self)@, decoded(symbol@), qty).1,
    {
        let ghost t0 = self@;
        let ghost k = decoded(symbol@);
        let (hash, dlen) = hash64_and_len(symbol.raw());
        let cap = self.slots.len();
        let ghost home = home_of(t0, hash);
        let mut idx: usize = (hash % (cap as u64)) as usize;
        proof {
            vstd::arithmetic::div_mod::lemma_mod_division_less_than_divisor(
                hash as int,
                cap as int,
            );
            vstd::arithmetic::div_mod::lemma_small_mod(home as nat, cap as nat);
            assert(idx == idx_at(t0, hash, 0));
        }
        let mut j: usize = 0;
        while j < cap
            invariant
                t0 == old(self)@,
                k == decoded(symbol@),
                self@ == t0,
                table_wf(t0),
                cap == cap_of(t0),
                cap == self.slots@.len(),
                self.arena.wf(),
                hash == hash_of(k),
                hash != 0,
                dlen == k.len(),
                home == home_of(t0, hash),
                0 <= home < cap,
                j <= cap,
                idx < cap,
                idx == idx_at(t0, hash, j as int),
                probe_from(t0, hash, k, j as nat) == probe(t0, k),
                forall|d: int| 0 <= d < j ==> t0.slots[idx_at(t0, hash, d)].kh != 0,
                forall|d: int|
                    0 <= d < j ==> !(t0.slots[idx_at(t0, hash, d)].kh == hash && slot_key(
                        t0,
                        idx_at(t0, hash, d),
                    ) == k),
            decreases cap - j,
        {
            let s = self.slots[idx];
            proof {
                assert(t0.slots[idx as int] == s@);
                assert(slot_ok(t0, idx as int));
            }
            if s.key_hash == hash {
                let (off, len) = unpack_meta(s.meta);
                proof {
                    if s.meta == 0 {
                        assert(meta_off(0) == 0 && meta_len(0) == 0) by {
                            vstd::arithmetic::div_mod::lemma_small_mod(0nat, 0x1_0000_0000nat);
                        }
                    }
                    assert(off + len <= self.arena.buf@.len());
                }
                let stored_opt = self.arena.get(off, len);
                match stored_opt {
                    None => {
                        proof {
                            assert(false);
                        }
                        return Err(ParseErrorKind::ArenaFull);
                    },
                    Some(stored) => {
                        proof {
                            assert(off == meta_off(s.meta) && len == meta_len(s.meta));
                            assert(t0.slots[idx as int].meta == s.meta);
                            assert(stored@ =~= slot_key(t0, idx as int));
                        }
                        let raw = symbol.raw();
                        if crate::escape::escaped_eq(raw, stored) {
                            proof {
                                assert(decoded(raw@) == stored@);
                                assert(slot_key(t0, idx as int) == k);
                                assert(probe(t0, k) == (Probe::Match { i: idx as int }));
                            }
                            let newslot = SymbolSlot {
                                key_hash: s.key_hash,
                                meta: s.meta,
                                count: s.count.wrapping_add(1),
                                volume: s.volume.wrapping_add(qty),
                            };
                            self.slots[idx] = newslot;
                            proof {
                                let t1 = self@;
                                let want = record_spec(t0, k, qty).0;
                                assert(t1.slots =~= want.slots);
                                assert(t1 =~= want);
                                lemma_wf_after_bump(t0, idx as int, qty);
                            }
                            return Ok(());
                        }
                        proof {
                            assert(slot_key(t0, idx as int) != k);
                        }
                    },
                }
            } else if s.key_hash == 0 {
                proof {
                    assert(probe(t0, k) == (Probe::Free { i: idx as int }));
                    lemma_dist_of_idx(home, j as int, cap as int);
                    assert(dist_to(t0, hash, idx as int) == j);
                }
                self.slots[idx] = SymbolSlot { key_hash: hash, meta: 0, count: 0, volume: 0 };
                let reserved = self.arena.reserve(dlen);
                match reserved {
                    None => {
                        proof {
                            let t1 = self@;
                            let want = record_spec(t0, k, qty).0;
                            assert(t1.slots =~= want.slots);
                            assert(t1 =~= want);
                            lemma_wf_after_claim_dead(t0, idx as int, hash, k, j as int);
                        }
                        return Err(ParseErrorKind::ArenaFull);
                    },
                    Some(off) => {
                        let mut tmp: Vec<u8> = Vec::new();
                        tmp.resize(dlen, 0u8);
                        let w = symbol.decode_into(tmp.as_mut_slice());
                        proof {
                            assert(tmp@.subrange(0, w as int) =~= tmp@);
                            assert(tmp@ == k);
                        }
                        self.arena.write(off, tmp.as_slice());
                        let m = pack_meta(off, dlen);
                        self.slots[idx] = SymbolSlot {
                            key_hash: hash,
                            meta: m,
                            count: 1,
                            volume: qty,
                        };
                        proof {
                            let t2 = self@;
                            let want = record_spec(t0, k, qty).0;
                            assert(t2.slots =~= want.slots);
                            assert(t2.bytes =~= want.bytes);
                            assert(t2 =~= want);
                            lemma_wf_after_publish(t0, t2, idx as int, hash, k, qty, j as int);
                        }
                        return Ok(());
                    },
                }
            }
            proof {
                assert(t0.slots[idx_at(t0, hash, j as int)].kh != 0);
                assert(!(t0.slots[idx_at(t0, hash, j as int)].kh == hash && slot_key(
                    t0,
                    idx_at(t0, hash, j as int),
                ) == k));
                assert(probe_from(t0, hash, k, j as nat) == probe_from(
                    t0,
                    hash,
                    k,
                    (j + 1) as nat,
                ));
                lemma_mod_step(home + j, cap as int);
                vstd::arithmetic::div_mod::lemma_mod_division_less_than_divisor(
                    home + j,
                    cap as int,
                );
            }
            idx = if idx + 1 == cap {
                0
            } else {
                idx + 1
            };
            j = j + 1;
        }
        proof {
            assert(probe(t0, k) == Probe::Full);
        }
        Err(ParseErrorKind::TableFull)
    }
}

/// One row of a table snapshot: the decoded symbol as text, with its
/// running count and traded volume.
#[derive(Debug)]
pub struct SymbolSnapshot {
    pub symbol: String,
    pub count: u64,
    pub volume: u64,
}

/// The mathematical content of a snapshot row.
#[verifier::ext_equal]
pub ghost struct RowV {
    pub symbol: Seq<char>,
    pub count: u64,
    pub volume: u64,
}

impl View for SymbolSnapshot {
    type V = RowV;

    open spec fn view(&self) -> RowV {
        RowV { symbol: self.symbol@, count: self.count, volume: self.volume }
    }
}

/// The rows a snapshot reports, from slot `i` on: one row per published
/// slot, in slot order; empty and claimed-but-unpublished slots are
/// skipped.
pub open spec fn rows_from(t: TableV, i: int) -> Seq<RowV>
    decreases t.slots.len() - i,
{
    if i < 0 || i >= t.slots.len() {
        seq![]
    } else {
        let rest = rows_from(t, i + 1);
        if published(t, i) {
            seq![
                RowV {
                    symbol: utf8_lossy(slot_key(t, i)),
                    count: t.slots[i].count,
                    volume: t.slots[i].volume,
                },
            ] + rest
        } else {
            rest
        }
    }
}

/// All rows of a snapshot of `t`.
pub open spec fn rows_of(t: TableV) -> Seq<RowV> {
    rows_from(t, 0)
}

impl SymbolTable {
    /// A point-in-time view of the table: the published slots in slot
    /// order, each with its decoded symbol text, count and volume.
    pub fn snapshot(&self) -> (r: Vec<SymbolSnapshot>)
        requires
            table_wf(self@),
        ensures
            r@.map_values(|s: SymbolSnapshot| s@) == rows_of(self@),
    {
        let ghost t = self@;
        let mut out: Vec<SymbolSnapshot> = Vec::new();
        let mut i: usize = 0;
        proof {
            assert(out@.map_values(|s: SymbolSnapshot| s@) =~= Seq::<RowV>::empty());
        }
        while i < self.slots.len()
            invariant
                table_wf(t),
                self@ == t,
                i <= self.slots@.len(),
                self.slots@.len() == cap_of(t),
                self.arena.wf(),
                rows_of(t) == out@.map_values(|s: SymbolSnapshot| s@) + rows_from(t, i as int),
            decreases self.slots@.len() - i,
        {
            let s = self.slots[i];
            proof {
                assert(t.slots[i as int] == s@);
                assert(slot_ok(t, i as int));
            }
            if s.key_hash != 0 && s.meta != 0 {
                let (off, len) = unpack_meta(s.meta);
                let stored_opt = self.arena.get(off, len);
                match stored_opt {
                    None => {
                        proof {
                            assert(false);
                        }
                    },
                    Some(stored) => {
                        proof {
                            assert(stored@ == slot_key(t, i as int));
                        }
                        let symbol = crate::strutil::bytes_to_string_lossy(stored);
                        let ghost oldout = out@;
                        out.push(
                            SymbolSnapshot { symbol, count: s.count, volume: s.volume },
                        );
                        proof {
                            assert(out@.map_values(|x: SymbolSnapshot| x@) =~= oldout.map_values(
                                |x: SymbolSnapshot| x@,
                            ) + seq![
                                RowV {
                                    symbol: utf8_lossy(slot_key(t, i as int)),
                                    count: t.slots[i as int].count,
                                    volume: t.slots[i as int].volume,
                                },
                            ]);
                            assert(rows_of(t) =~= out@.map_values(|x: SymbolSnapshot| x@)
                                + rows_from(t, i + 1));
                        }
                    },
                }
            } else {
                proof {
                    assert(rows_from(t, i as int) == rows_from(t, i + 1));
                }
            }
            i = i + 1;
        }
        proof {
            assert(rows_from(t, i as int) =~= Seq::<RowV>::empty());
            assert(rows_of(t) =~= out@.map_values(|s: SymbolSnapshot| s@));
        }
        out
    }
}

/// A table none of whose slots (from `i` on) are published reports no
/// rows.
pub proof fn lemma_rows_all_unpublished(t: TableV, i: int)
    requires
        forall|x: int| i <= x < t.slots.len() ==> !published(t, x),
    ensures
        rows_from(t, i).len() == 0,
    decreases t.slots.len() - i,
{
    if 0 <= i < t.slots.len() {
        lemma_rows_all_unpublished(t, i + 1);
    }
}

/// Recording is spelling-blind: the transition is a function of the
/// decoded symbol bytes, so two spellings with one decoded form make the
/// table do exactly the same thing.
pub proof fn lemma_record_spelling_independent(t: TableV, a: Seq<u8>, b: Seq<u8>, qty: u64)
    requires
        decoded(a) == decoded(b),
    ensures
        record_spec(t, decoded(a), qty) == record_spec(t, decoded(b), qty),
{
}

/// Probing for a published key walks the probe path up to that key's
/// slot and finds it there: no earlier slot is free or holds the key.
proof fn lemma_probe_reaches(t: TableV, h: u64, k: Seq<u8>, q: int, j: int)
    requires
        table_wf(t),
        0 <= q < cap_of(t),
        published(t, q),
        slot_key(t, q) == k,
        h == hash_of(k),
        0 <= j <= dist_to(t, h, q),
    ensures
        probe_from(t, h, k, j as nat) == (Probe::Match { i: q }),
    decreases dist_to(t, h, q) - j,
{
    let c = cap_of(t);
    assert(slot_ok(t, q));
    assert(t.slots[q].kh == hash_of(slot_key(t, q)));
    let dq = dist_to(t, h, q);
    vstd::arithmetic::div_mod::lemma_mod_division_less_than_divisor(q - home_of(t, h) + c, c);
    vstd::arithmetic::div_mod::lemma_mod_division_less_than_divisor(h as int, c);
    lemma_idx_of_dist(home_of(t, h), q, c);
    assert(idx_at(t, h, dq) == q);
    if j == dq {
        assert(probe_from(t, h, k, j as nat) == (Probe::Match { i: q }));
    } else {
        let x = idx_at(t, h, j);
        assert(t.slots[x].kh != 0);
        vstd::arithmetic::div_mod::lemma_mod_division_less_than_divisor(home_of(t, h) + j, c);
        lemma_idx_injective(home_of(t, h), j, dq, c);
        assert(x != q);
        if t.slots[x].kh == h && slot_key(t, x) == k {
            assert(slot_ok(t, x));
            if t.slots[x].meta != 0 {
                assert(published(t, x));
                assert(false);
            } else {
                assert(meta_off(0) == 0 && meta_len(0) == 0) by {
                    vstd::arithmetic::div_mod::lemma_small_mod(0nat, 0x1_0000_0000nat);
                }
                assert(slot_key(t, x) =~= Seq::<u8>::empty());
                assert(meta_len(t.slots[q].meta) > 0);
                assert(k.len() > 0);
                assert(false);
            }
        }
        lemma_probe_reaches(t, h, k, q, j + 1);
    }
}

/// A published symbol accumulates in place: recording it again, from any
/// spelling, succeeds, bumps that slot's count and volume, and leaves
/// every other slot and the arena untouched — one row per symbol, never
/// two.
pub proof fn lemma_record_existing_accumulates(t: TableV, k: Seq<u8>, qty: u64, q: int)
    requires
        table_wf(t),
        0 <= q < cap_of(t),
        published(t, q),
        slot_key(t, q) == k,
    ensures
        probe(t, k) == (Probe::Match { i: q }),
        record_spec(t, k, qty).1 == Ok::<(), ParseErrorKind>(()),
        record_spec(t, k, qty).0.slots[q].count == wrap_add(t.slots[q].count, 1),
        record_spec(t, k, qty).0.slots[q].volume == wrap_add(t.slots[q].volume, qty),
        record_spec(t, k, qty).0.slots[q].kh == t.slots[q].kh,
        record_spec(t, k, qty).0.slots[q].meta == t.slots[q].meta,
        forall|x: int|
            0 <= x < cap_of(t) && x != q ==> record_spec(t, k, qty).0.slots[x] == t.slots[x],
        record_spec(t, k, qty).0.bytes == t.bytes,
        record_spec(t, k, qty).0.next == t.next,
{
    let c = cap_of(t);
    vstd::arithmetic::div_mod::lemma_mod_division_less_than_divisor(
        q - home_of(t, hash_of(k)) + c,
        c,
    );
    lemma_probe_reaches(t, hash_of(k), k, q, 0);
}

/// The two-call accumulation law in exact numbers: once a symbol is
/// published, recording it again from any spelling succeeds and adds
/// exactly one to its count and the quantity to its volume, touching
/// nothing else, as long as neither counter overflows.
pub proof fn lemma_record_existing_adds_exactly(t: TableV, k: Seq<u8>, qty: u64, q: int)
    requires
        table_wf(t),
        0 <= q < cap_of(t),
        published(t, q),
        slot_key(t, q) == k,
        t.slots[q].count + 1 <= u64::MAX,
        t.slots[q].volume + qty <= u64::MAX,
    ensures
        record_spec(t, k, qty).1 == Ok::<(), ParseErrorKind>(()),
        record_spec(t, k, qty).0.slots[q].count == t.slots[q].count + 1,
        record_spec(t, k, qty).0.slots[q].volume == t.slots[q].volume + qty,
        forall|x: int|
            0 <= x < cap_of(t) && x != q ==> record_spec(t, k, qty).0.slots[x] == t.slots[x],
        record_spec(t, k, qty).0.bytes == t.bytes,
        record_spec(t, k, qty).0.next == t.next,
{
    lemma_record_existing_accumulates(t, k, qty, q);
}

/// A `TableFull` failure changes nothing: the table that rejected a new
/// symbol still holds every earlier one, untouched.
pub proof fn lemma_table_full_preserves(t: TableV, k: Seq<u8>, qty: u64)
    requires
        record_spec(t, k, qty).1 == Err::<(), ParseErrorKind>(ParseErrorKind::TableFull),
    ensures
        record_spec(t, k, qty).0 == t,
{
}

/// What each probe outcome says about the slot it names: a match slot
/// carries the key's hash and points at the key's bytes; a free slot is
/// empty; both lie within the table.
proof fn lemma_probe_found(t: TableV, h: u64, k: Seq<u8>, j: nat)
    ensures
        probe_from(t, h, k, j) matches Probe::Match { i } ==> 0 <= i < cap_of(t) && t.slots[i].kh
            == h && slot_key(t, i) == k,
        probe_from(t, h, k, j) matches Probe::Free { i } ==> 0 <= i < cap_of(t)
            && t.slots[i].kh == 0,
    decreases t.slots.len() - j,
{
    if j < t.slots.len() {
        let i = idx_at(t, h, j as int);
        let s = t.slots[i];
        if s.kh == h && slot_key(t, i) == k {
            if cap_of(t) > 0 {
                vstd::arithmetic::div_mod::lemma_mod_division_less_than_divisor(
                    home_of(t, h) + j,
                    cap_of(t),
                );
            }
        } else if s.kh == 0 {
            if cap_of(t) > 0 {
                vstd::arithmetic::div_mod::lemma_mod_division_less_than_divisor(
                    home_of(t, h) + j,
                    cap_of(t),
                );
            }
        } else {
            lemma_probe_found(t, h, k, (j + 1) as nat);
        }
    }
}

/// No record outcome disturbs other published rows: a published slot
/// keeps its key, and — unless it is the slot being bumped — its count
/// and volume.
#[verifier::rlimit(60)]
pub proof fn lemma_record_preserves_published(t: TableV, k: Seq<u8>, qty: u64, q: int)
    requires
        table_wf(t),
        0 <= q < cap_of(t),
        published(t, q),
    ensures
        published(record_spec(t, k, qty).0, q),
        slot_key(record_spec(t, k, qty).0, q) == slot_key(t, q),
        slot_key(t, q) != k ==> record_spec(t, k, qty).0.slots[q] == t.slots[q],
{
    let t1 = record_spec(t, k, qty).0;
    assert(slot_ok(t, q));
    lemma_probe_found(t, hash_of(k), k, 0);
    match probe(t, k) {
        Probe::Match { i } => {
            if i == q {
                assert(slot_key(t, q) == k);
                assert(slot_key(t1, q) =~= slot_key(t, q));
            } else {
                assert(t1.slots[q] == t.slots[q]);
                assert(slot_key(t1, q) =~= slot_key(t, q));
            }
        },
        Probe::Free { i } => {
            assert(t.slots[i].kh == 0);
            assert(i != q);
            assert(t1.slots[q] == t.slots[q]);
            if k.len() == 0 || t.next + k.len() > t.bytes.len() {
                assert(slot_key(t1, q) =~= slot_key(t, q));
            } else {
                assert(meta_off(t.slots[q].meta) + meta_len(t.slots[q].meta) <= t.next);
                assert(forall|x: int| 0 <= x < t.next ==> t1.bytes[x] == t.bytes[x]);
                assert(slot_key(t1, q) =~= slot_key(t, q));
            }
        },
        Probe::Full => {
            assert(t1 == t);
            assert(slot_key(t1, q) =~= slot_key(t, q));
        },
    }
}

/// Bumping the counters of a matched slot keeps the table well-formed.
proof fn lemma_wf_after_bump(t0: TableV, i: int, qty: u64)
    requires
        table_wf(t0),
        0 <= i < cap_of(t0),
        t0.slots[i].kh != 0,
    ensures
        table_wf(record_spec_bump(t0, i, qty)),
        record_spec_bump(t0, i, qty).bytes == t0.bytes,
{
    let t1 = record_spec_bump(t0, i, qty);
    assert(t1.slots.len() == t0.slots.len());
    assert(forall|x: int|
        0 <= x < cap_of(t0) ==> t1.slots[x].kh == t0.slots[x].kh && t1.slots[x].meta
            == t0.slots[x].meta);
    assert forall|x: int| 0 <= x < cap_of(t0) implies slot_key(t1, x) == slot_key(t0, x) by {
        assert(slot_key(t1, x) =~= slot_key(t0, x));
    }
    assert forall|x: int| 0 <= x < cap_of(t1) implies #[trigger] slot_ok(t1, x) by {
        assert(slot_ok(t0, x));
        let s1 = t1.slots[x];
        if s1.kh == 0 {
            assert(x != i);
            assert(t1.slots[x] == t0.slots[x]);
        } else {
            assert forall|d: int| 0 <= d < dist_to(t1, s1.kh, x) implies t1.slots[idx_at(
                t1,
                s1.kh,
                d,
            )].kh != 0 by {
                assert(dist_to(t1, s1.kh, x) == dist_to(t0, t0.slots[x].kh, x));
                assert(idx_at(t1, s1.kh, d) == idx_at(t0, t0.slots[x].kh, d));
                assert(t0.slots[idx_at(t0, t0.slots[x].kh, d)].kh != 0);
            }
        }
    }
    assert forall|p: int, q: int|
        0 <= p < cap_of(t1) && 0 <= q < cap_of(t1) && p != q && published(t1, p) && published(
            t1,
            q,
        ) implies slot_key(t1, p) != slot_key(t1, q) by {
        assert(published(t0, p) && published(t0, q));
    }
}

/// The slot state after bumping slot `i`, as `record_spec` writes it.
pub open spec fn record_spec_bump(t0: TableV, i: int, qty: u64) -> TableV {
    let s = t0.slots[i];
    TableV {
        slots: t0.slots.update(
            i,
            SlotV {
                kh: s.kh,
                meta: s.meta,
                count: wrap_add(s.count, 1),
                volume: wrap_add(s.volume, qty),
            },
        ),
        ..t0
    }
}

/// Claiming a free slot whose key the arena could not take leaves the
/// table well-formed: the slot is occupied but unpublished.
proof fn lemma_wf_after_claim_dead(t0: TableV, i: int, h: u64, k: Seq<u8>, j: int)
    requires
        table_wf(t0),
        0 <= i < cap_of(t0),
        t0.slots[i].kh == 0,
        h != 0,
        0 <= j < cap_of(t0),
        i == idx_at(t0, h, j),
        dist_to(t0, h, i) == j,
        forall|d: int| 0 <= d < j ==> t0.slots[idx_at(t0, h, d)].kh != 0,
    ensures
        table_wf(
            TableV {
                slots: t0.slots.update(i, SlotV { kh: h, meta: 0, count: 0, volume: 0 }),
                ..t0
            },
        ),
{
    let t1 = TableV {
        slots: t0.slots.update(i, SlotV { kh: h, meta: 0, count: 0, volume: 0 }),
        ..t0
    };
    assert(slot_ok(t0, i));
    assert(t0.slots[i].meta == 0);
    assert(t1.slots.len() == t0.slots.len());
    assert(forall|x: int| 0 <= x < cap_of(t0) && x != i ==> t1.slots[x] == t0.slots[x]);
    assert(forall|x: int| 0 <= x < cap_of(t0) ==> t1.slots[x].meta == t0.slots[x].meta);
    assert(forall|x: int| 0 <= x < cap_of(t0) && t0.slots[x].kh != 0 ==> t1.slots[x].kh != 0);
    assert forall|x: int| 0 <= x < cap_of(t0) implies slot_key(t1, x) == slot_key(t0, x) by {
        assert(slot_key(t1, x) =~= slot_key(t0, x));
    }
    assert forall|x: int| 0 <= x < cap_of(t1) implies #[trigger] slot_ok(t1, x) by {
        assert(slot_ok(t0, x));
        let s1 = t1.slots[x];
        if s1.kh == 0 {
            assert(x != i);
        } else if x == i {
            assert(dist_to(t1, h, i) == j);
            assert forall|d: int| 0 <= d < dist_to(t1, h, i) implies t1.slots[idx_at(
                t1,
                h,
                d,
            )].kh != 0 by {
                assert(idx_at(t1, h, d) == idx_at(t0, h, d));
                assert(t0.slots[idx_at(t0, h, d)].kh != 0);
            }
        } else {
            assert forall|d: int| 0 <= d < dist_to(t1, s1.kh, x) implies t1.slots[idx_at(
                t1,
                s1.kh,
                d,
            )].kh != 0 by {
                assert(dist_to(t1, s1.kh, x) == dist_to(t0, t0.slots[x].kh, x));
                assert(idx_at(t1, s1.kh, d) == idx_at(t0, t0.slots[x].kh, d));
                assert(t0.slots[idx_at(t0, t0.slots[x].kh, d)].kh != 0);
            }
        }
    }
    assert forall|p: int, q: int|
        0 <= p < cap_of(t1) && 0 <= q < cap_of(t1) && p != q && published(t1, p) && published(
            t1,
            q,
        ) implies slot_key(t1, p) != slot_key(t1, q) by {
        assert(p != i && q != i);
        assert(published(t0, p) && published(t0, q));
    }
}

/// Publishing key `k` into a freshly claimed slot keeps the table
/// well-formed, provided probing saw no free slot and no slot holding
/// `k` on the way there.
proof fn lemma_wf_after_publish(t0: TableV, t2: TableV, i: int, h: u64, k: Seq<u8>, qty: u64, j: int)
    requires
        table_wf(t0),
        0 <= i < cap_of(t0),
        t0.slots[i].kh == 0,
        h == hash_of(k),
        h != 0,
        k.len() > 0,
        t0.next + k.len() <= t0.bytes.len(),
        0 <= j < cap_of(t0),
        i == idx_at(t0, h, j),
        dist_to(t0, h, i) == j,
        forall|d: int| 0 <= d < j ==> t0.slots[idx_at(t0, h, d)].kh != 0,
        forall|d: int|
            0 <= d < j ==> !(t0.slots[idx_at(t0, h, d)].kh == h && slot_key(t0, idx_at(t0, h, d))
                == k),
        t2 == (TableV {
            slots: t0.slots.update(
                i,
                SlotV { kh: h, meta: pack_meta_spec(t0.next, k.len()), count: 1, volume: qty },
            ),
            bytes: t0.bytes.subrange(0, t0.next as int) + k + t0.bytes.subrange(
                t0.next + k.len() as int,
                t0.bytes.len() as int,
            ),
            next: t0.next + k.len(),
        }),
    ensures
        table_wf(t2),
{
    let c = cap_of(t0);
    let m = pack_meta_spec(t0.next, k.len());
    assert(t2.bytes.len() == t0.bytes.len());
    assert(meta_off(m) == t0.next && meta_len(m) == k.len() && m != 0) by (nonlinear_arith)
        requires
            m == (t0.next * 0x1_0000_0000 + k.len()) as u64,
            0 < k.len() < 0x1_0000_0000,
            0 <= t0.next < 0x1_0000_0000,
            meta_off(m) == m / 0x1_0000_0000,
            meta_len(m) == m % 0x1_0000_0000,
    ;
    // bytes below the old cursor are untouched
    assert(forall|x: int| 0 <= x < t0.next ==> t2.bytes[x] == t0.bytes[x]);
    // the new slot's key bytes are exactly k
    assert(slot_key(t2, i) =~= k);
    // keys of other slots are untouched
    assert forall|x: int|
        0 <= x < c && x != i && t0.slots[x].meta != 0 && t0.slots[x].kh != 0 implies slot_key(
        t2,
        x,
    ) == slot_key(t0, x) by {
        assert(slot_ok(t0, x));
        assert(meta_off(t0.slots[x].meta) + meta_len(t0.slots[x].meta) <= t0.next);
        assert(slot_key(t2, x) =~= slot_key(t0, x));
    }
    assert(forall|x: int|
        0 <= x < c && t0.slots[x].kh != 0 ==> t2.slots[x].kh != 0);
    // every slot is internally consistent
    assert forall|x: int| 0 <= x < c implies #[trigger] slot_ok(t2, x) by {
        assert(slot_ok(t0, x));
        if x == i {
            assert(t2.slots[i].kh == h && t2.slots[i].meta == m);
            assert(meta_off(m) + meta_len(m) <= t2.next);
            assert(hash_of(slot_key(t2, i)) == h);
            assert(dist_to(t2, h, i) == j);
            assert forall|d: int| 0 <= d < dist_to(t2, h, i) implies t2.slots[idx_at(
                t2,
                h,
                d,
            )].kh != 0 by {
                assert(idx_at(t2, h, d) == idx_at(t0, h, d));
                assert(t0.slots[idx_at(t0, h, d)].kh != 0);
            }
        } else {
            let s2 = t2.slots[x];
            assert(s2 == t0.slots[x]);
            if s2.kh != 0 && s2.meta != 0 {
                assert(slot_key(t2, x) == slot_key(t0, x));
                assert(meta_off(s2.meta) + meta_len(s2.meta) <= t2.next);
            }
            if s2.kh != 0 {
                assert forall|d: int| 0 <= d < dist_to(t2, s2.kh, x) implies t2.slots[idx_at(
                    t2,
                    s2.kh,
                    d,
                )].kh != 0 by {
                    assert(dist_to(t2, s2.kh, x) == dist_to(t0, t0.slots[x].kh, x));
                    assert(idx_at(t2, s2.kh, d) == idx_at(t0, t0.slots[x].kh, d));
                    assert(t0.slots[idx_at(t0, t0.slots[x].kh, d)].kh != 0);
                }
            }
        }
    }
    // no key is published twice
    assert forall|q: int|
        0 <= q < c && q != i && published(t2, q) implies slot_key(t2, q) != k by {
        if slot_key(t2, q) == k {
            assert(published(t0, q));
            assert(slot_ok(t0, q));
            assert(slot_key(t0, q) == k);
            assert(t0.slots[q].kh == hash_of(k));
            let dq = dist_to(t0, h, q);
            lemma_idx_of_dist(home_of(t0, h), q, c);
            assert(idx_at(t0, h, dq) == q);
            if dq < j {
                assert(!(t0.slots[idx_at(t0, h, dq)].kh == h && slot_key(t0, idx_at(t0, h, dq))
                    == k));
                assert(false);
            } else if dq == j {
                assert(q == i);
                assert(false);
            } else {
                assert(t0.slots[idx_at(t0, h, j)].kh != 0);
                assert(false);
            }
        }
    }
    assert forall|p: int, q: int|
        0 <= p < c && 0 <= q < c && p != q && published(t2, p) && published(t2, q) implies slot_key(
        t2,
        p,
    ) != slot_key(t2, q) by {
        if p != i && q != i {
            assert(published(t0, p) && published(t0, q));
            assert(slot_key(t2, p) == slot_key(t0, p) && slot_key(t2, q) == slot_key(t0, q));
        } else if p == i {
            assert(slot_key(t2, q) != k);
        } else {
            assert(slot_key(t2, p) != k);
        }
    }
}

} // verus!
