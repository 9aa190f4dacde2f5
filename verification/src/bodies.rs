//! Facts about the cells that a list of snake bodies covers, and how that
//! cover changes when one body moves, grows, leaves or joins.

use vstd::prelude::*;
use crate::base::Coord;
use crate::world::{bodies_distinct, bodies_within, on_body};

verus! {

/// The body after one step forward: the tail cell leaves, `next` becomes the head.
pub open spec fn body_moved(body: Seq<Coord>, next: Coord) -> Seq<Coord> {
    body.subrange(1, body.len() as int).push(next)
}

/// The cover after the snake at `index` has moved onto a cell that no snake covered.
pub proof fn lemma_cover_after_move(bodies: Seq<Seq<Coord>>, index: int, next: Coord)
    requires
        bodies_distinct(bodies),
        0 <= index < bodies.len(),
        bodies[index].len() >= 1,
        !on_body(bodies, next),
    ensures
        bodies_distinct(bodies.update(index, body_moved(bodies[index], next))),
        forall|c: Coord|
            on_body(bodies.update(index, body_moved(bodies[index], next)), c) <==> (c == next || (
            on_body(bodies, c) && c != bodies[index][0])),
{
    let old_body = bodies[index];
    let len = old_body.len() as int;
    let tail = old_body[0];
    let nb = body_moved(old_body, next);
    let b2 = bodies.update(index, nb);
    assert(nb.len() == len);
    assert(forall|j: int| 0 <= j < len - 1 ==> nb[j] == old_body[j + 1]);
    assert(nb[len - 1] == next);
    // every cell of the new cover is either `next` or an old cell other than the tail
    assert forall|i: int, j: int| 0 <= i < b2.len() && 0 <= j < b2[i].len() implies (#[trigger] b2[i][j]
        == next && i == index && j == len - 1) || (on_body(bodies, b2[i][j]) && b2[i][j] != tail) by {
        if i != index {
            assert(b2[i][j] == bodies[i][j]);
            assert(bodies[index][0] == tail);
        } else if j < len - 1 {
            assert(b2[i][j] == bodies[index][j + 1]);
            assert(bodies[index][0] == tail);
        }
    }
    assert forall|i1: int, j1: int, i2: int, j2: int|
        0 <= i1 < b2.len() && 0 <= j1 < b2[i1].len() && 0 <= i2 < b2.len() && 0 <= j2
            < b2[i2].len() && #[trigger] b2[i1][j1] == #[trigger] b2[i2][j2] implies i1 == i2 && j1
        == j2 by {
        let at1 = if i1 == index && j1 < len - 1 { j1 + 1 } else { j1 };
        let at2 = if i2 == index && j2 < len - 1 { j2 + 1 } else { j2 };
        if !(i1 == index && j1 == len - 1) {
            assert(b2[i1][j1] == bodies[i1][at1]);
        }
        if !(i2 == index && j2 == len - 1) {
            assert(b2[i2][j2] == bodies[i2][at2]);
        }
    }
    assert forall|c: Coord| on_body(b2, c) <==> (c == next || (on_body(bodies, c) && c != tail)) by {
        if on_body(b2, c) {
            let (i, j) = choose|i: int, j: int|
                0 <= i < b2.len() && 0 <= j < b2[i].len() && #[trigger] b2[i][j] == c;
            assert(b2[i][j] == c);
        }
        if c == next {
            assert(b2[index][len - 1] == c);
        }
        if on_body(bodies, c) && c != tail {
            let (i, j) = choose|i: int, j: int|
                0 <= i < bodies.len() && 0 <= j < bodies[i].len() && #[trigger] bodies[i][j] == c;
            if i != index {
                assert(b2[i][j] == c);
            } else {
                assert(j != 0);
                assert(b2[index][j - 1] == c);
            }
        }
    }
}

/// The cover after the snake at `index` has moved onto its own tail cell,
/// which the tail leaves as the head comes: the same cover.
pub proof fn lemma_cover_after_turn(bodies: Seq<Seq<Coord>>, index: int)
    requires
        bodies_distinct(bodies),
        0 <= index < bodies.len(),
        bodies[index].len() >= 1,
    ensures
        bodies_distinct(bodies.update(index, body_moved(bodies[index], bodies[index][0]))),
        forall|c: Coord|
            on_body(bodies.update(index, body_moved(bodies[index], bodies[index][0])), c)
                <==> on_body(bodies, c),
{
    let old_body = bodies[index];
    let len = old_body.len() as int;
    let nb = body_moved(old_body, old_body[0]);
    let b2 = bodies.update(index, nb);
    assert(nb.len() == len);
    assert forall|i: int, j: int| 0 <= i < b2.len() && 0 <= j < b2[i].len() implies #[trigger] b2[i][j]
        == bodies[i][if i == index {
        if j < len - 1 {
            j + 1
        } else {
            0
        }
    } else {
        j
    }] by {}
    assert forall|i1: int, j1: int, i2: int, j2: int|
        0 <= i1 < b2.len() && 0 <= j1 < b2[i1].len() && 0 <= i2 < b2.len() && 0 <= j2
            < b2[i2].len() && #[trigger] b2[i1][j1] == #[trigger] b2[i2][j2] implies i1 == i2 && j1
        == j2 by {
        let at1 = if i1 == index { if j1 < len - 1 { j1 + 1 } else { 0 } } else { j1 };
        let at2 = if i2 == index { if j2 < len - 1 { j2 + 1 } else { 0 } } else { j2 };
        assert(b2[i1][j1] == bodies[i1][at1]);
        assert(b2[i2][j2] == bodies[i2][at2]);
    }
    assert forall|c: Coord| on_body(b2, c) <==> on_body(bodies, c) by {
        if on_body(b2, c) {
            let (i, j) = choose|i: int, j: int|
                0 <= i < b2.len() && 0 <= j < b2[i].len() && #[trigger] b2[i][j] == c;
            let at = if i == index { if j < len - 1 { j + 1 } else { 0 } } else { j };
            assert(bodies[i][at] == c);
        }
        if on_body(bodies, c) {
            let (i, j) = choose|i: int, j: int|
                0 <= i < bodies.len() && 0 <= j < bodies[i].len() && #[trigger] bodies[i][j] == c;
            let at = if i == index { if j == 0 { len - 1 } else { j - 1 } } else { j };
            assert(b2[i][at] == c);
        }
    }
}

/// The cover after the snake at `index` has grown onto a cell that no snake covered.
pub proof fn lemma_cover_after_growth(bodies: Seq<Seq<Coord>>, index: int, next: Coord)
    requires
        bodies_distinct(bodies),
        0 <= index < bodies.len(),
        !on_body(bodies, next),
    ensures
        bodies_distinct(bodies.update(index, bodies[index].push(next))),
        forall|c: Coord|
            on_body(bodies.update(index, bodies[index].push(next)), c) <==> (c == next || on_body(
                bodies,
                c,
            )),
{
    let old_body = bodies[index];
    let len = old_body.len() as int;
    let nb = old_body.push(next);
    let b2 = bodies.update(index, nb);
    assert forall|i: int, j: int| 0 <= i < b2.len() && 0 <= j < b2[i].len() implies (#[trigger] b2[i][j]
        == next && i == index && j == len) || (0 <= j < bodies[i].len() && bodies[i][j]
        == b2[i][j]) by {}
    assert forall|i1: int, j1: int, i2: int, j2: int|
        0 <= i1 < b2.len() && 0 <= j1 < b2[i1].len() && 0 <= i2 < b2.len() && 0 <= j2
            < b2[i2].len() && #[trigger] b2[i1][j1] == #[trigger] b2[i2][j2] implies i1 == i2 && j1
        == j2 by {
        if !(i1 == index && j1 == len) {
            assert(b2[i1][j1] == bodies[i1][j1]);
        }
        if !(i2 == index && j2 == len) {
            assert(b2[i2][j2] == bodies[i2][j2]);
        }
    }
    assert forall|c: Coord| on_body(b2, c) <==> (c == next || on_body(bodies, c)) by {
        if on_body(b2, c) {
            let (i, j) = choose|i: int, j: int|
                0 <= i < b2.len() && 0 <= j < b2[i].len() && #[trigger] b2[i][j] == c;
            assert(b2[i][j] == c);
            if c != next {
                assert(bodies[i][j] == c);
            }
        }
        if c == next {
            assert(b2[index][len] == c);
        }
        if on_body(bodies, c) {
            let (i, j) = choose|i: int, j: int|
                0 <= i < bodies.len() && 0 <= j < bodies[i].len() && #[trigger] bodies[i][j] == c;
            assert(b2[i][j] == c);
        }
    }
}

/// The cover after the snake at `index` has left the board.
pub proof fn lemma_cover_after_removal(bodies: Seq<Seq<Coord>>, index: int)
    requires
        bodies_distinct(bodies),
        0 <= index < bodies.len(),
    ensures
        bodies_distinct(bodies.remove(index)),
        forall|c: Coord|
            on_body(bodies.remove(index), c) <==> (on_body(bodies, c) && !bodies[index].contains(c)),
{
    let b2 = bodies.remove(index);
    assert forall|i: int, j: int| 0 <= i < b2.len() && 0 <= j < b2[i].len() implies #[trigger] b2[i][j]
        == bodies[if i < index { i } else { i + 1 }][j] by {}
    assert forall|i1: int, j1: int, i2: int, j2: int|
        0 <= i1 < b2.len() && 0 <= j1 < b2[i1].len() && 0 <= i2 < b2.len() && 0 <= j2
            < b2[i2].len() && #[trigger] b2[i1][j1] == #[trigger] b2[i2][j2] implies i1 == i2 && j1
        == j2 by {
        let at1 = if i1 < index { i1 } else { i1 + 1 };
        let at2 = if i2 < index { i2 } else { i2 + 1 };
        assert(b2[i1][j1] == bodies[at1][j1]);
        assert(b2[i2][j2] == bodies[at2][j2]);
    }
    assert forall|c: Coord| on_body(b2, c) <==> (on_body(bodies, c) && !bodies[index].contains(c)) by {
        if on_body(b2, c) {
            let (i, j) = choose|i: int, j: int|
                0 <= i < b2.len() && 0 <= j < b2[i].len() && #[trigger] b2[i][j] == c;
            let p = if i < index { i } else { i + 1 };
            assert(bodies[p][j] == c);
            if bodies[index].contains(c) {
                let k = choose|k: int| 0 <= k < bodies[index].len() && bodies[index][k] == c;
                assert(bodies[index][k] == bodies[p][j]);
            }
        }
        if on_body(bodies, c) && !bodies[index].contains(c) {
            let (i, j) = choose|i: int, j: int|
                0 <= i < bodies.len() && 0 <= j < bodies[i].len() && #[trigger] bodies[i][j] == c;
            assert(i != index);
            let p = if i < index { i } else { i - 1 };
            assert(b2[p][j] == c);
        }
    }
}

/// The cover after a new body has joined on cells that no snake covered.
pub proof fn lemma_cover_after_join(bodies: Seq<Seq<Coord>>, body: Seq<Coord>)
    requires
        bodies_distinct(bodies),
        body.no_duplicates(),
        forall|j: int| 0 <= j < body.len() ==> !on_body(bodies, #[trigger] body[j]),
    ensures
        bodies_distinct(bodies.push(body)),
        forall|c: Coord| on_body(bodies.push(body), c) <==> (on_body(bodies, c) || body.contains(c)),
{
    let b2 = bodies.push(body);
    let n = bodies.len() as int;
    assert forall|i1: int, j1: int, i2: int, j2: int|
        0 <= i1 < b2.len() && 0 <= j1 < b2[i1].len() && 0 <= i2 < b2.len() && 0 <= j2
            < b2[i2].len() && #[trigger] b2[i1][j1] == #[trigger] b2[i2][j2] implies i1 == i2 && j1
        == j2 by {
        if i1 < n {
            assert(b2[i1][j1] == bodies[i1][j1]);
        } else {
            assert(b2[i1][j1] == body[j1]);
        }
        if i2 < n {
            assert(b2[i2][j2] == bodies[i2][j2]);
        } else {
            assert(b2[i2][j2] == body[j2]);
        }
    }
    assert forall|c: Coord| on_body(b2, c) <==> (on_body(bodies, c) || body.contains(c)) by {
        if on_body(b2, c) {
            let (i, j) = choose|i: int, j: int|
                0 <= i < b2.len() && 0 <= j < b2[i].len() && #[trigger] b2[i][j] == c;
            if i < n {
                assert(bodies[i][j] == c);
            } else {
                assert(body[j] == c);
            }
        }
        if on_body(bodies, c) {
            let (i, j) = choose|i: int, j: int|
                0 <= i < bodies.len() && 0 <= j < bodies[i].len() && #[trigger] bodies[i][j] == c;
            assert(b2[i][j] == c);
        }
        if body.contains(c) {
            let j = choose|j: int| 0 <= j < body.len() && body[j] == c;
            assert(b2[n][j] == c);
        }
    }
}

/// A list without duplicates still has none with one more item that it did not hold.
pub proof fn lemma_push_distinct<T>(s: Seq<T>, item: T)
    requires
        s.no_duplicates(),
        !s.contains(item),
    ensures
        s.push(item).no_duplicates(),
{
    let out = s.push(item);
    assert forall|i: int, j: int| 0 <= i < out.len() && 0 <= j < out.len() && i != j implies out[i]
        != out[j] by {
        if i < s.len() {
            assert(out[i] == s[i]);
        }
        if j < s.len() {
            assert(out[j] == s[j]);
        }
    }
}

/// A list without duplicates still has none without its last item.
pub proof fn lemma_drop_last_distinct<T>(s: Seq<T>)
    requires
        s.no_duplicates(),
        s.len() > 0,
    ensures
        s.drop_last().no_duplicates(),
        !s.drop_last().contains(s.last()),
{
    let init = s.drop_last();
    assert forall|i: int, j: int| 0 <= i < init.len() && 0 <= j < init.len() && i != j implies init[i]
        != init[j] by {
        assert(init[i] == s[i] && init[j] == s[j]);
    }
    if init.contains(s.last()) {
        let k = choose|k: int| 0 <= k < init.len() && init[k] == s.last();
        assert(s[k] == s[s.len() - 1]);
    }
}

/// Bodies that lie on the board still do after one of them is replaced by a
/// body that lies on the board.
pub proof fn lemma_within_after_update(
    bodies: Seq<Seq<Coord>>,
    index: int,
    body: Seq<Coord>,
    w: int,
    h: int,
)
    requires
        bodies_within(bodies, w, h),
        0 <= index < bodies.len(),
        forall|j: int| 0 <= j < body.len() ==> (#[trigger] body[j]).within(w, h),
    ensures
        bodies_within(bodies.update(index, body), w, h),
{
    let b2 = bodies.update(index, body);
    assert forall|i: int, j: int| 0 <= i < b2.len() && 0 <= j < b2[i].len() implies (
    #[trigger] b2[i][j]).within(w, h) by {
        if i != index {
            assert(b2[i][j] == bodies[i][j]);
        } else {
            assert(b2[i][j] == body[j]);
        }
    }
}

} // verus!
