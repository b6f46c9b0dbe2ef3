//! The transposition table: search results shared between threads.
//!
//! Each bucket holds two slots of two words, a key and a data word; the
//! first slot is always replaced, the second only by a search at least as
//! deep.
use vstd::prelude::*;
use std::sync::atomic::{AtomicU64, Ordering};
use crate::board::moves::Move;

verus! {

/// The kind of bound a stored score is.
#[derive(Clone, Copy, PartialEq, Eq, Structural)]
pub enum NodeType {
    /// The exact value.
    Exact,
    /// An upper bound: no move reached alpha.
    Alpha,
    /// A lower bound: a move reached beta.
    Beta,
}

/// A stored search result.
#[derive(Clone, Copy)]
pub struct TTEntry {
    pub key: u64,
    pub depth: u8,
    pub score: i32,
    pub node_type: NodeType,
    pub best_move: Option<Move>,
    pub age: u8,
}

/// The number of a node type in the data word.
pub open spec fn node_type_bits(nt: NodeType) -> u64 {
    match nt {
        NodeType::Exact => 0,
        NodeType::Alpha => 1,
        NodeType::Beta => 2,
    }
}

/// The data word of an entry: depth in bits 0-7, score in bits 8-39, node
/// type in bits 40-41, age (six bits) in bits 42-47 and the move in bits
/// 48-63 (zero for no move).
pub open spec fn pack_spec(depth: u8, score: i32, node_type: NodeType, best_move: Option<Move>, age: u8) -> u64 {
    let raw: u16 = match best_move {
        Some(m) => m.spec_raw(),
        None => 0,
    };
    let mv: u64 = (raw as u64) << 48u64;
    (depth as u64 & 0xFFu64) | (((score as u64) & 0xFFFFFFFFu64) << 8u64) | ((node_type_bits(node_type) << 40u64)
        & 0x30000000000u64) | (((age as u64) & 0x3Fu64) << 42u64) | mv
}

/// The entry a data word stores for `key`.
pub open spec fn unpack_spec(key: u64, data: u64) -> TTEntry {
    let type_val = (data >> 40u64) & 0x3u64;
    let raw = (data >> 48u64) as u16;
    TTEntry {
        key,
        depth: (data & 0xFFu64) as u8,
        score: (data >> 8u64) as i32,
        node_type: if type_val == 1 {
            NodeType::Alpha
        } else if type_val == 2 {
            NodeType::Beta
        } else {
            NodeType::Exact
        },
        best_move: if raw != 0 { Some(Move::spec_from_raw(raw)) } else { None },
        age: ((data >> 42u64) & 0x3Fu64) as u8,
    }
}

/// The data word of an entry.
fn pack_entry(depth: u8, score: i32, node_type: NodeType, best_move: Option<Move>, age: u8) -> (data: u64)
    ensures
        data == pack_spec(depth, score, node_type, best_move, age),
{
    let type_val: u64 = match node_type {
        NodeType::Exact => 0,
        NodeType::Alpha => 1,
        NodeType::Beta => 2,
    };
    let raw: u16 = match best_move {
        Some(m) => m.raw(),
        None => 0,
    };
    let data: u64 = ((depth as u64) & 0xFF) | (((score as u64) & 0xFFFFFFFF) << 8) | ((type_val << 40) & 0x30000000000)
        | (((age as u64) & 0x3F) << 42) | ((raw as u64) << 48);
    data
}

/// The entry a data word stores for `key`.
pub fn unpack_entry(key: u64, data: u64) -> (e: TTEntry)
    ensures
        e == unpack_spec(key, data),
{
    let depth = (data & 0xFF) as u8;
    let score = (data >> 8) as i32;
    let type_val = (data >> 40) & 0x3;
    let age = ((data >> 42) & 0x3F) as u8;
    let node_type = if type_val == 0 {
        NodeType::Exact
    } else if type_val == 1 {
        NodeType::Alpha
    } else if type_val == 2 {
        NodeType::Beta
    } else {
        NodeType::Exact
    };
    let move_raw = (data >> 48) as u16;
    let best_move = if move_raw != 0 { Some(Move::from_raw(move_raw)) } else { None };
    TTEntry { key, depth, score, node_type, best_move, age }
}

/// Law: an entry read back from the data word it was packed into is the
/// entry itself, when its age fits in six bits and its move is not the
/// all-zero move.
pub proof fn law_pack_unpack(key: u64, depth: u8, score: i32, node_type: NodeType, best_move: Option<Move>, age: u8)
    requires
        age < 64,
        best_move matches Some(m) ==> m.spec_raw() != 0,
    ensures
        unpack_spec(key, pack_spec(depth, score, node_type, best_move, age)) == (TTEntry {
            key,
            depth,
            score,
            node_type,
            best_move,
            age,
        }),
{
    let r: u16 = match best_move {
        Some(m) => m.spec_raw(),
        None => 0,
    };
    let t = node_type_bits(node_type);
    let data = pack_spec(depth, score, node_type, best_move, age);
    assert(data == (depth as u64 & 0xFFu64) | (((score as u64) & 0xFFFFFFFFu64) << 8u64) | ((t << 40u64)
        & 0x30000000000u64) | (((age as u64) & 0x3Fu64) << 42u64) | ((r as u64) << 48u64));
    assert({
        let d = (depth as u64 & 0xFFu64) | (((score as u64) & 0xFFFFFFFFu64) << 8u64) | ((t << 40u64)
            & 0x30000000000u64) | (((age as u64) & 0x3Fu64) << 42u64) | ((r as u64) << 48u64);
        &&& (d & 0xFFu64) as u8 == depth
        &&& (d >> 8u64) as i32 == score
        &&& (d >> 40u64) & 0x3u64 == t
        &&& ((d >> 42u64) & 0x3Fu64) as u8 == age
        &&& (d >> 48u64) as u16 == r
    }) by (bit_vector)
        requires
            t < 3,
            age < 64,
    ;
    if let Some(m) = best_move {
        Move::lemma_from_raw_raw(m);
    }
}

/// `part` out of `whole`, in permille, rounded down.
fn permille(part: usize, whole: usize) -> (r: usize)
    requires
        part <= whole,
        0 < whole <= 1000,
    ensures
        r == part * 1000 / (whole as int),
        r <= 1000,
{
    assert(part * 1000 <= whole * 1000) by (nonlinear_arith)
        requires
            part <= whole,
    ;
    assert((part * 1000) / (whole as int) <= 1000) by (nonlinear_arith)
        requires
            part <= whole,
            whole > 0,
    ;
    (part * 1000) / whole
}

/// The transposition table.
pub struct TranspositionTable {
    table: Vec<AtomicU64>,
    mask: usize,
}

/// The least power of two not below `x`.
pub open spec fn is_pow2(n: int) -> bool
    decreases n,
{
    if n <= 0 {
        false
    } else if n == 1 {
        true
    } else {
        n % 2 == 0 && is_pow2(n / 2)
    }
}

/// The least power of two not below `x` (for `x` at least one).
pub(crate) fn next_power_of_two(x: usize) -> (r: usize)
    requires
        1 <= x <= 0x4000_0000,
    ensures
        is_pow2(r as int),
        r >= x,
        r / 2 < x,
{
    let mut r: usize = 1;
    while r < x
        invariant
            1 <= x <= 0x4000_0000,
            is_pow2(r as int),
            1 <= r <= 0x8000_0000,
            r / 2 < x,
        decreases 0x8000_0000 - r,
    {
        assert((r * 2) / 2 == r);
        r = r * 2;
    }
    r
}

/// Which slots of a bucket a new result for `key` goes into, given the
/// keys of the two slots and the depth stored in the second: the slot that
/// already holds the key (the first checked first); otherwise the first
/// slot, which is always replaced, and the second as well when the new
/// search is at least as deep.
pub open spec fn replacement_spec(key: u64, key1: u64, key2: u64, depth: u8, depth2: u8) -> (bool, bool) {
    if key1 == key {
        (true, false)
    } else if key2 == key {
        (false, true)
    } else {
        (true, depth >= depth2)
    }
}

/// The slots a new result goes into (see [`replacement_spec`]).
pub fn replacement(key: u64, key1: u64, key2: u64, depth: u8, depth2: u8) -> (r: (bool, bool))
    ensures
        r == replacement_spec(key, key1, key2, depth, depth2),
{
    if key1 == key {
        (true, false)
    } else if key2 == key {
        (false, true)
    } else {
        (true, depth >= depth2)
    }
}

impl TranspositionTable {
    #[verifier::type_invariant]
    spec fn inv(self) -> bool {
        self.table@.len() == (self.mask + 1) * 4
    }

    /// The number of buckets.
    pub closed spec fn buckets(self) -> int {
        self.mask + 1
    }

    /// A table of about `mb` megabytes: the number of 32-byte buckets that
    /// fit, rounded up to a power of two, and at least one. The size is
    /// bounded so that the table's words can be counted in a 32-bit `usize`.
    pub fn new(mb: usize) -> (t: TranspositionTable)
        requires
            mb <= 8192,
        ensures
            is_pow2(t.buckets()),
            t.buckets() >= mb * 32768,
            t.buckets() >= 1,
            t.buckets() / 2 < (if mb == 0 { 1 } else { mb * 32768 }),
    {
        let raw = mb * 32768;
        let at_least_one = if raw > 1 { raw } else { 1 };
        let bucket_count = next_power_of_two(at_least_one);
        let n = bucket_count * 4;
        let mut table: Vec<AtomicU64> = Vec::with_capacity(n);
        let mut i: usize = 0;
        while i < n
            invariant
                i <= n,
                table@.len() == i,
            decreases n - i,
        {
            table.push(AtomicU64::new(0));
            i = i + 1;
        }
        TranspositionTable { table, mask: bucket_count - 1 }
    }

    /// The first word of the bucket of `key`.
    fn bucket_index(&self, key: u64) -> (idx: usize)
        ensures
            idx + 3 < self.table@.len(),
            self.table@.len() <= usize::MAX,
    {
        proof {
            use_type_invariant(self);
        }
        let len = self.table.len();
        let m = self.mask;
        let k = key as usize;
        assert(k & m <= m) by (bit_vector);
        (k & m) * 4
    }

    /// Stores a search result for `key` in the slots [`replacement`] picks,
    /// given the keys the bucket's slots hold and the depth stored in the
    /// second slot.
    pub fn store(&self, key: u64, depth: u8, score: i32, node_type: NodeType, best_move: Option<Move>, age: u8) {
        let idx = self.bucket_index(key);
        let data = pack_entry(depth, score, node_type, best_move, age);
        let key1 = self.table[idx].load(Ordering::Relaxed);
        let key2 = self.table[idx + 2].load(Ordering::Relaxed);
        let existing_data2 = self.table[idx + 3].load(Ordering::Relaxed);
        let existing_depth2 = unpack_entry(key, existing_data2).depth;
        let (first, second) = replacement(key, key1, key2, depth, existing_depth2);
        if first {
            self.table[idx + 1].store(data, Ordering::Relaxed);
            self.table[idx].store(key, Ordering::Release);
        }
        if second {
            self.table[idx + 3].store(data, Ordering::Relaxed);
            self.table[idx + 2].store(key, Ordering::Release);
        }
    }

    /// The stored result for `key`, if a slot of its bucket holds the key
    /// (the first slot checked first): the entry its data word encodes.
    pub fn probe(&self, key: u64) -> (r: Option<TTEntry>)
        ensures
            r matches Some(e) ==> exists|data: u64| e == #[trigger] unpack_spec(key, data),
            r matches Some(e) ==> e.key == key,
    {
        let idx = self.bucket_index(key);
        let mut found_data: Option<u64> = None;
        if self.table[idx].load(Ordering::Acquire) == key {
            found_data = Some(self.table[idx + 1].load(Ordering::Relaxed));
        } else if self.table[idx + 2].load(Ordering::Acquire) == key {
            found_data = Some(self.table[idx + 3].load(Ordering::Relaxed));
        }
        if let Some(data) = found_data {
            let e = unpack_entry(key, data);
            return Some(e);
        }
        None
    }

    /// Occupancy in permille, sampled over at most the first 1000 buckets:
    /// the buckets with a slot in use.
    pub fn hashfull(&self) -> (r: usize)
        ensures
            r <= 1000,
    {
        proof {
            use_type_invariant(self);
        }
        let len = self.table.len();
        let buckets = self.mask + 1;
        let sample_size = if buckets < 1000 { buckets } else { 1000 };
        if sample_size == 0 {
            return 0;
        }
        let mut occupied: usize = 0;
        let mut i: usize = 0;
        while i < sample_size
            invariant
                sample_size <= 1000,
                sample_size <= self.mask + 1,
                self.table@.len() == (self.mask + 1) * 4,
                i <= sample_size,
                occupied <= i,
            decreases sample_size - i,
        {
            if self.table[i * 4].load(Ordering::Relaxed) != 0 || self.table[i * 4 + 2].load(Ordering::Relaxed) != 0 {
                occupied = occupied + 1;
            }
            i = i + 1;
        }
        permille(occupied, sample_size)
    }
}

} // verus!
