//! Numbers in memory.
//!
//! Numbers are stored in little-endian byte order: the byte at the lowest
//! address is the least significant one.

use vstd::prelude::*;

use crate::pages::PhysMap;

verus! {

/// `256^n`.
pub open spec fn pow256(n: nat) -> int
    decreases n,
{
    if n == 0 {
        1
    } else {
        256 * pow256((n - 1) as nat)
    }
}

/// The number in the `n` bytes at `ptr`.
pub open spec fn number_at(mem: Map<int, u8>, ptr: int, n: nat) -> int
    decreases n,
{
    if n == 0 {
        0
    } else {
        mem[ptr] + 256 * number_at(mem, ptr + 1, (n - 1) as nat)
    }
}

/// The memory after `value` has been written to the `n` bytes at `ptr`.
pub open spec fn with_number(mem: Map<int, u8>, ptr: int, n: nat, value: int) -> Map<int, u8>
    decreases n,
{
    if n == 0 {
        mem
    } else {
        with_number(mem.insert(ptr, (value % 256) as u8), ptr + 1, (n - 1) as nat, value / 256)
    }
}

/// The `n` addresses from `ptr` on are accessible.
pub open spec fn accessible(mem: Map<int, u8>, ptr: int, n: int) -> bool {
    forall|p: int| ptr <= p < ptr + n ==> #[trigger] mem.dom().contains(p)
}

/// `before` and `after` hold the same `n` bytes at `ptr`.
pub open spec fn same_bytes(before: Map<int, u8>, after: Map<int, u8>, ptr: int, n: int) -> bool {
    forall|p: int| ptr <= p < ptr + n ==> #[trigger] after[p] == before[p]
}

/// `before` and `after` differ in the `n` bytes at `ptr` at most.
pub open spec fn same_but(before: Map<int, u8>, after: Map<int, u8>, ptr: int, n: int) -> bool {
    &&& after.dom() == before.dom()
    &&& forall|p: int| p < ptr || ptr + n <= p ==> #[trigger] after[p] == before[p]
}

/// The number of bytes in a machine word.
pub open spec fn word_bytes() -> int {
    usize::BITS as int / 8
}

/// The machine word at `ptr`.
pub open spec fn word_at(mem: Map<int, u8>, ptr: int) -> usize {
    number_at(mem, ptr, word_bytes() as nat) as usize
}

/// The pointer in the machine word at `ptr`, where zero stands for none.
pub open spec fn pointer_at(mem: Map<int, u8>, ptr: int) -> Option<usize> {
    if word_at(mem, ptr) == 0 {
        None
    } else {
        Some(word_at(mem, ptr))
    }
}

/// A number is bounded by what its bytes can hold.
pub proof fn lemma_number_bound(mem: Map<int, u8>, ptr: int, n: nat)
    ensures
        0 <= number_at(mem, ptr, n) < pow256(n),
    decreases n,
{
    if n > 0 {
        lemma_number_bound(mem, ptr + 1, (n - 1) as nat);
    }
}

/// A number is the same where its bytes are.
pub proof fn lemma_number_same(before: Map<int, u8>, after: Map<int, u8>, ptr: int, n: nat)
    requires
        same_bytes(before, after, ptr, n as int),
    ensures
        number_at(after, ptr, n) == number_at(before, ptr, n),
    decreases n,
{
    if n > 0 {
        assert(after[ptr] == before[ptr]);
        lemma_number_same(before, after, ptr + 1, (n - 1) as nat);
    }
}

/// Writing a number changes its own bytes only.
pub proof fn lemma_with_number_frame(mem: Map<int, u8>, ptr: int, n: nat, value: int)
    requires
        accessible(mem, ptr, n as int),
    ensures
        same_but(mem, with_number(mem, ptr, n, value), ptr, n as int),
    decreases n,
{
    if n > 0 {
        let next = mem.insert(ptr, (value % 256) as u8);
        assert(next.dom() =~= mem.dom()) by {
            assert(mem.dom().contains(ptr));
        }
        lemma_with_number_frame(next, ptr + 1, (n - 1) as nat, value / 256);
    }
}

/// A number that was written is read back.
pub proof fn lemma_with_number_read(mem: Map<int, u8>, ptr: int, n: nat, value: int)
    requires
        accessible(mem, ptr, n as int),
        0 <= value < pow256(n),
    ensures
        number_at(with_number(mem, ptr, n, value), ptr, n) == value,
    decreases n,
{
    if n > 0 {
        let next = mem.insert(ptr, (value % 256) as u8);
        assert(next.dom() =~= mem.dom()) by {
            assert(mem.dom().contains(ptr));
        }
        let after = with_number(next, ptr + 1, (n - 1) as nat, value / 256);
        lemma_with_number_read(next, ptr + 1, (n - 1) as nat, value / 256);
        lemma_with_number_frame(next, ptr + 1, (n - 1) as nat, value / 256);
        assert(after[ptr] == next[ptr]);
    }
}

/// A word has 4 or 8 bytes, which hold every `usize`.
pub proof fn lemma_word_fits()
    ensures
        word_bytes() == 4 || word_bytes() == 8,
        pow256(word_bytes() as nat) == usize::MAX + 1,
        pow256(4) == 0x1_0000_0000,
{
    reveal_with_fuel(pow256, 9);
}

/// A word is the same where its bytes are.
pub proof fn lemma_word_same(before: Map<int, u8>, after: Map<int, u8>, ptr: int)
    requires
        same_bytes(before, after, ptr, word_bytes()),
    ensures
        word_at(after, ptr) == word_at(before, ptr),
        pointer_at(after, ptr) == pointer_at(before, ptr),
{
    lemma_word_fits();
    lemma_number_same(before, after, ptr, word_bytes() as nat);
}

/// Returns the number of bytes in a machine word.
pub fn word_size() -> (bytes: usize)
    ensures
        bytes == word_bytes(),
        bytes == 4 || bytes == 8,
{
    (usize::BITS / 8) as usize
}

/// Reads the number in the `n` bytes at `ptr`.
pub fn load_number<M: PhysMap>(map: &M, ptr: usize, n: usize) -> (value: u64)
    requires
        map.inv(),
        n <= 8,
        ptr + n <= usize::MAX,
        accessible(map.mem(), ptr as int, n as int),
    ensures
        value == number_at(map.mem(), ptr as int, n as nat),
{
    let mut value: u64 = 0;
    let mut left: usize = n;
    proof {
        reveal_with_fuel(pow256, 9);
    }
    while left > 0
        invariant
            map.inv(),
            left <= n <= 8,
            ptr + n <= usize::MAX,
            accessible(map.mem(), ptr as int, n as int),
            value == number_at(map.mem(), ptr + left, (n - left) as nat),
        decreases left,
    {
        left = left - 1;
        let byte: u8 = map.load(ptr + left);
        proof {
            reveal_with_fuel(pow256, 9);
            lemma_number_bound(map.mem(), ptr + left, (n - left) as nat);
            lemma_number_bound(map.mem(), ptr + left + 1, (n - left - 1) as nat);
            assert(number_at(map.mem(), ptr + left, (n - left) as nat) == byte + 256 * value);
            assert(pow256((n - left) as nat) <= pow256(8));
        }
        value = byte as u64 + 256 * value;
    }
    value
}

/// Writes `value` to the `n` bytes at `ptr`.
pub fn store_number<M: PhysMap>(map: &mut M, ptr: usize, n: usize, value: u64)
    requires
        old(map).inv(),
        n <= 8,
        ptr + n <= usize::MAX,
        accessible(old(map).mem(), ptr as int, n as int),
    ensures
        final(map).inv(),
        final(map).mem() == with_number(old(map).mem(), ptr as int, n as nat, value as int),
        final(map).mapping() == old(map).mapping(),
        final(map).book() == old(map).book(),
        same_but(old(map).mem(), final(map).mem(), ptr as int, n as int),
        value < pow256(n as nat) ==> number_at(final(map).mem(), ptr as int, n as nat) == value,
{
    let mut done: usize = 0;
    let mut rest: u64 = value;
    let ghost start = map.mem();
    while done < n
        invariant
            map.inv(),
            done <= n <= 8,
            ptr + n <= usize::MAX,
            accessible(start, ptr as int, n as int),
            map.mem().dom() == start.dom(),
            map.mapping() == old(map).mapping(),
            map.book() == old(map).book(),
            with_number(map.mem(), ptr + done, (n - done) as nat, rest as int)
                == with_number(start, ptr as int, n as nat, value as int),
        decreases n - done,
    {
        let ghost before = map.mem();
        assert(start.dom().contains(ptr + done));
        map.store(ptr + done, (rest % 256) as u8);
        assert(map.mem().dom() =~= before.dom());
        rest = rest / 256;
        done = done + 1;
    }
    proof {
        lemma_with_number_frame(start, ptr as int, n as nat, value as int);
        if value < pow256(n as nat) {
            lemma_with_number_read(start, ptr as int, n as nat, value as int);
        }
    }
}

/// Reads the machine word at `ptr`.
pub fn load_word<M: PhysMap>(map: &M, ptr: usize) -> (word: usize)
    requires
        map.inv(),
        ptr + word_bytes() <= usize::MAX,
        accessible(map.mem(), ptr as int, word_bytes()),
    ensures
        word == word_at(map.mem(), ptr as int),
{
    let value: u64 = load_number(map, ptr, word_size());
    proof {
        lemma_word_fits();
        lemma_number_bound(map.mem(), ptr as int, word_bytes() as nat);
    }
    value as usize
}

/// Writes `word` to the machine word at `ptr`.
pub fn store_word<M: PhysMap>(map: &mut M, ptr: usize, word: usize)
    requires
        old(map).inv(),
        ptr + word_bytes() <= usize::MAX,
        accessible(old(map).mem(), ptr as int, word_bytes()),
    ensures
        final(map).inv(),
        final(map).mapping() == old(map).mapping(),
        final(map).book() == old(map).book(),
        same_but(old(map).mem(), final(map).mem(), ptr as int, word_bytes()),
        word_at(final(map).mem(), ptr as int) == word,
{
    proof {
        lemma_word_fits();
    }
    store_number(map, ptr, word_size(), word as u64);
}

/// Writes `byte` to the `n` bytes at `ptr`.
pub fn fill<M: PhysMap>(map: &mut M, ptr: usize, n: usize, byte: u8)
    requires
        old(map).inv(),
        ptr + n <= usize::MAX,
        accessible(old(map).mem(), ptr as int, n as int),
    ensures
        final(map).inv(),
        final(map).mapping() == old(map).mapping(),
        final(map).book() == old(map).book(),
        same_but(old(map).mem(), final(map).mem(), ptr as int, n as int),
        forall|p: int| ptr <= p < ptr + n ==> #[trigger] final(map).mem()[p] == byte,
{
    let mut done: usize = 0;
    let ghost start = map.mem();
    while done < n
        invariant
            map.inv(),
            done <= n,
            ptr + n <= usize::MAX,
            accessible(start, ptr as int, n as int),
            map.mapping() == old(map).mapping(),
            map.book() == old(map).book(),
            same_but(start, map.mem(), ptr as int, done as int),
            forall|p: int| ptr <= p < ptr + done ==> #[trigger] map.mem()[p] == byte,
        decreases n - done,
    {
        assert(start.dom().contains(ptr + done));
        map.store(ptr + done, byte);
        assert(map.mem().dom() =~= start.dom());
        done = done + 1;
    }
}

/// Copies `n` bytes from `from` to `to`, which do not overlap.
pub fn copy<M: PhysMap>(map: &mut M, from: usize, to: usize, n: usize)
    requires
        old(map).inv(),
        from + n <= usize::MAX,
        to + n <= usize::MAX,
        from + n <= to || to + n <= from,
        accessible(old(map).mem(), from as int, n as int),
        accessible(old(map).mem(), to as int, n as int),
    ensures
        final(map).inv(),
        final(map).mapping() == old(map).mapping(),
        final(map).book() == old(map).book(),
        same_but(old(map).mem(), final(map).mem(), to as int, n as int),
        forall|i: int| 0 <= i < n ==> #[trigger] final(map).mem()[to + i] == old(map).mem()[from + i],
{
    let mut done: usize = 0;
    let ghost start = map.mem();
    while done < n
        invariant
            map.inv(),
            done <= n,
            from + n <= usize::MAX,
            to + n <= usize::MAX,
            from + n <= to || to + n <= from,
            accessible(start, from as int, n as int),
            accessible(start, to as int, n as int),
            map.mapping() == old(map).mapping(),
            map.book() == old(map).book(),
            same_but(start, map.mem(), to as int, done as int),
            forall|i: int| 0 <= i < done ==> #[trigger] map.mem()[to + i] == start[from + i],
        decreases n - done,
    {
        assert(start.dom().contains(from + done));
        assert(start.dom().contains(to + done));
        let byte: u8 = map.load(from + done);
        map.store(to + done, byte);
        assert(map.mem().dom() =~= start.dom());
        done = done + 1;
    }
}

} // verus!
