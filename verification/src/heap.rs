//! Arithmetic of the complete binary heap that every table embeds in its
//! entry array: slot 1 is the root, slot `i` has the children `2i` and `2i+1`.

use vstd::prelude::*;
use vstd::arithmetic::power2::{lemma2_to64, lemma_pow2_unfold, pow2};
use crate::field::lemma_shl_pow2;
use crate::prefix::{bit_at, same_bits};

verus! {

/// The slot reached from slot 1 by following `n` bits of `o`, starting at
/// bit `off`: a 0 bit goes to the left child, a 1 bit to the right child.
pub open spec fn heap_index(o: Seq<u8>, off: int, n: nat) -> nat
    decreases n,
{
    if n == 0 {
        1
    } else {
        2 * heap_index(o, off, (n - 1) as nat) + if bit_at(o, off + n - 1) {
            1nat
        } else {
            0nat
        }
    }
}

/// A slot reached after `n` bits lies in row `n` of the heap.
pub proof fn lemma_heap_index_row(o: Seq<u8>, off: int, n: nat)
    ensures
        pow2(n) <= heap_index(o, off, n) < 2 * pow2(n),
    decreases n,
{
    if n == 0 {
        lemma2_to64();
    } else {
        lemma_heap_index_row(o, off, (n - 1) as nat);
        lemma_pow2_unfold(n);
    }
}

/// Whether slot `j` lies in the subtree of the heap whose top is slot `k`.
pub open spec fn in_subtree(k: int, j: int) -> bool
    decreases j,
{
    if k < 1 || j < k {
        false
    } else if j == k {
        true
    } else {
        in_subtree(k, j / 2)
    }
}

/// Below its top, a subtree is the subtrees of the top's two children.
pub proof fn lemma_subtree_children(k: int, j: int)
    requires
        1 <= k < j,
    ensures
        in_subtree(k, j) == (in_subtree(2 * k, j) || in_subtree(2 * k + 1, j)),
    decreases j,
{
    reveal_with_fuel(in_subtree, 2);
    if j / 2 > k {
        lemma_subtree_children(k, j / 2);
    }
}

/// Within a table, the subtree of a fringe slot is that slot alone.
pub proof fn lemma_subtree_fringe(k: int, j: int, fringe: int)
    requires
        1 <= fringe <= k,
        k < j < 2 * fringe,
    ensures
        !in_subtree(k, j),
{
    reveal_with_fuel(in_subtree, 2);
}

/// A subtree holds no slot above its top.
pub proof fn lemma_subtree_below(k: int, j: int)
    ensures
        in_subtree(k, j) ==> 1 <= k <= j,
{
}

/// The row of the heap in which slot `i` lies: slot 1 is row 0, and the
/// children of a slot lie one row below it.
pub open spec fn row(i: int) -> nat
    decreases i,
{
    if i <= 1 {
        0
    } else {
        1 + row(i / 2)
    }
}

/// The slot reached after `n` bits lies in row `n`, and above it lies the
/// slot reached after `n - 1` bits.
pub proof fn lemma_heap_index_up(o: Seq<u8>, off: int, n: nat)
    ensures
        row(heap_index(o, off, n) as int) == n,
        heap_index(o, off, n) >= 1,
        n >= 1 ==> heap_index(o, off, n) as int / 2 == heap_index(o, off, (n - 1) as nat),
        n >= 1 ==> heap_index(o, off, n) >= 2,
    decreases n,
{
    if n > 0 {
        lemma_heap_index_up(o, off, (n - 1) as nat);
    }
}

/// Rows grow downwards in a subtree: a slot below the top lies in a lower
/// row, and only the top lies in the top's row.
pub proof fn lemma_subtree_row(k: int, j: int)
    requires
        in_subtree(k, j),
    ensures
        row(k) <= row(j),
        k != j ==> row(k) < row(j),
    decreases j,
{
    if j != k {
        lemma_subtree_row(k, j / 2);
    }
}

/// Subtrees nest: what lies below a slot of a subtree lies in the subtree.
pub proof fn lemma_subtree_nest(a: int, b: int, c: int)
    requires
        in_subtree(a, b),
        in_subtree(b, c),
    ensures
        in_subtree(a, c),
    decreases c,
{
    if c != b {
        lemma_subtree_nest(a, b, c / 2);
    }
}

/// A slot lies below one slot of each row at most.
pub proof fn lemma_subtree_one(a: int, b: int, j: int)
    requires
        in_subtree(a, j),
        in_subtree(b, j),
        row(a) == row(b),
    ensures
        a == b,
    decreases j,
{
    if j == a {
        lemma_subtree_row(b, j);
    } else if j == b {
        lemma_subtree_row(a, j);
    } else {
        lemma_subtree_one(a, b, j / 2);
    }
}

/// A slot of at least 2 lies in the subtree of the slot above it.
pub proof fn lemma_subtree_of_parent(j: int)
    requires
        j >= 2,
    ensures
        in_subtree(j / 2, j),
{
    reveal_with_fuel(in_subtree, 2);
}

/// The slot reached after `b` bits lies in the subtree of the slot reached
/// after the first `a` of them.
pub proof fn lemma_heap_index_nest(o: Seq<u8>, off: int, a: nat, b: nat)
    requires
        a <= b,
    ensures
        in_subtree(heap_index(o, off, a) as int, heap_index(o, off, b) as int),
    decreases b - a,
{
    lemma_heap_index_up(o, off, b);
    lemma_heap_index_up(o, off, a);
    if a < b {
        lemma_heap_index_nest(o, off, a, (b - 1) as nat);
        lemma_subtree_row(
            heap_index(o, off, a) as int,
            heap_index(o, off, (b - 1) as nat) as int,
        );
        lemma_subtree_below(
            heap_index(o, off, a) as int,
            heap_index(o, off, (b - 1) as nat) as int,
        );
    }
}

/// Two bit strings lead to the same slot exactly when they have the same
/// length and the same bits.
pub proof fn lemma_heap_index_same(o1: Seq<u8>, o2: Seq<u8>, off: int, n1: nat, n2: nat)
    ensures
        heap_index(o1, off, n1) == heap_index(o2, off, n2) <==> n1 == n2 && same_bits(
            o1,
            o2,
            off,
            off + n1,
        ),
    decreases n1,
{
    lemma_heap_index_up(o1, off, n1);
    lemma_heap_index_up(o2, off, n2);
    if n1 > 0 && n2 > 0 {
        lemma_heap_index_same(o1, o2, off, (n1 - 1) as nat, (n2 - 1) as nat);
        if n1 == n2 && same_bits(o1, o2, off, off + n1) {
            assert(bit_at(o1, off + n1 - 1) == bit_at(o2, off + n1 - 1));
        }
    }
}

/// The fringe of a stride of 1 to 30 bits.
pub proof fn lemma_fringe_bounds(bits: nat)
    requires
        1 <= bits <= 30,
    ensures
        2 <= pow2(bits) <= 0x4000_0000,
        (1u32 << (bits as u32)) == pow2(bits),
{
    lemma_shl_pow2(bits as u32);
    lemma_pow2_unfold(bits);
    vstd::arithmetic::power2::lemma_pow2_pos((bits - 1) as nat);
}

/// Powers of two grow with the exponent.
pub proof fn lemma_pow2_grows(a: nat, b: nat)
    requires
        a <= b,
    ensures
        pow2(a) <= pow2(b),
    decreases b - a,
{
    if a < b {
        lemma_pow2_grows(a, (b - 1) as nat);
        lemma_pow2_unfold(b);
    }
}

} // verus!
