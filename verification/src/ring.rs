//! A mark that goes round a list: the entry behind the last is the first.

use vstd::prelude::*;

verus! {

/// The index that is marked on a list of `len` entries when `selected`
/// was marked before: the same if it is on the list, else the last.
pub open spec fn clamped(selected: usize, len: nat) -> usize {
    if len == 0 {
        0
    } else if selected >= len {
        (len - 1) as usize
    } else {
        selected
    }
}

/// The entry after `selected` on a ring of `len` entries.
pub open spec fn next_on_ring(selected: usize, len: nat) -> usize {
    if len == 0 {
        0
    } else {
        ((clamped(selected, len) + 1) % (len as int)) as usize
    }
}

/// The entry before `selected` on a ring of `len` entries.
pub open spec fn prev_on_ring(selected: usize, len: nat) -> usize {
    if len == 0 {
        0
    } else {
        ((clamped(selected, len) + len - 1) % (len as int)) as usize
    }
}

/// The index that is marked on a list of `len` entries.
pub fn clamp_selected(selected: usize, len: usize) -> (r: usize)
    ensures
        r == clamped(selected, len as nat),
{
    if len == 0 {
        0
    } else if selected >= len {
        len - 1
    } else {
        selected
    }
}

/// The entry after `selected` on a ring of `len` entries.
pub fn ring_next(selected: usize, len: usize) -> (r: usize)
    ensures
        r == next_on_ring(selected, len as nat),
        len > 0 ==> r < len,
{
    if len == 0 {
        0
    } else {
        let at: usize = clamp_selected(selected, len);
        proof {
            if at + 1 == len {
                assert((at + 1) % (len as int) == 0) by (nonlinear_arith)
                    requires
                        at + 1 == len,
                        len >= 1,
                ;
            } else {
                assert((at + 1) % (len as int) == at + 1) by (nonlinear_arith)
                    requires
                        0 <= at + 1 < len,
                ;
            }
        }
        if at + 1 == len {
            0
        } else {
            at + 1
        }
    }
}

/// The entry before `selected` on a ring of `len` entries.
pub fn ring_prev(selected: usize, len: usize) -> (r: usize)
    ensures
        r == prev_on_ring(selected, len as nat),
        len > 0 ==> r < len,
{
    if len == 0 {
        0
    } else {
        let at: usize = clamp_selected(selected, len);
        proof {
            if at == 0 {
                assert((0 + len - 1) % (len as int) == len - 1) by (nonlinear_arith)
                    requires
                        len >= 1,
                ;
            } else {
                assert((at + len - 1) % (len as int) == at - 1) by (nonlinear_arith)
                    requires
                        1 <= at < len,
                ;
            }
        }
        if at == 0 {
            len - 1
        } else {
            at - 1
        }
    }
}

/// Going to the next entry and back, or back and to the next, ends where it began.
pub proof fn lemma_ring_there_and_back(selected: usize, len: nat)
    requires
        0 < len <= usize::MAX,
        selected < len,
    ensures
        prev_on_ring(next_on_ring(selected, len), len) == selected,
        next_on_ring(prev_on_ring(selected, len), len) == selected,
{
    let n = len as int;
    let s = selected as int;
    if s + 1 == n {
        assert((s + 1) % n == 0) by (nonlinear_arith)
            requires
                s + 1 == n,
                n >= 1,
        ;
        assert((0 + n - 1) % n == n - 1) by (nonlinear_arith)
            requires
                n >= 1,
        ;
    } else {
        assert((s + 1) % n == s + 1) by (nonlinear_arith)
            requires
                0 <= s + 1 < n,
        ;
        assert((s + 1 + n - 1) % n == s) by (nonlinear_arith)
            requires
                0 <= s < n,
        ;
    }
    if s == 0 {
        assert((0 + n - 1) % n == n - 1) by (nonlinear_arith)
            requires
                n >= 1,
        ;
        assert((n - 1 + 1) % n == 0) by (nonlinear_arith)
            requires
                n >= 1,
        ;
    } else {
        assert((s + n - 1) % n == s - 1) by (nonlinear_arith)
            requires
                1 <= s < n,
        ;
        assert((s - 1 + 1) % n == s) by (nonlinear_arith)
            requires
                0 <= s < n,
        ;
    }
}

} // verus!
