//! What holds of the virtual file over any writes and reads.

use vstd::prelude::*;
use crate::engine::{clamp, overwrite};
use crate::memory::span;

verus! {

/// The virtual file `c` after the writes `ws`, each an offset and its bytes,
/// made one after another.
pub open spec fn apply_writes(c: Seq<u8>, ws: Seq<(int, Seq<u8>)>) -> Seq<u8>
    decreases ws.len(),
{
    if ws.len() == 0 {
        c
    } else {
        overwrite(apply_writes(c, ws.drop_last()), ws.last().0, ws.last().1)
    }
}

/// The index of the last of the writes `ws` that covers offset `v`, or -1.
pub open spec fn last_writer(ws: Seq<(int, Seq<u8>)>, v: int) -> int
    decreases ws.len(),
{
    if ws.len() == 0 {
        -1
    } else if ws.last().0 <= v < ws.last().0 + ws.last().1.len() {
        ws.len() - 1
    } else {
        last_writer(ws.drop_last(), v)
    }
}

/// The end of the furthest-reaching write of `ws` that writes anything, or 0.
pub open spec fn reach(ws: Seq<(int, Seq<u8>)>) -> int
    decreases ws.len(),
{
    if ws.len() == 0 {
        0
    } else {
        let r = reach(ws.drop_last());
        let e = if ws.last().1.len() > 0 { ws.last().0 + ws.last().1.len() } else { 0 };
        if e > r { e } else { r }
    }
}

/// After any writes, the virtual file reaches as far as the furthest of
/// them or as it did before, and each byte is the one that the last write
/// covering it wrote; a byte that no write covered is the one that was
/// there, or zero where the file did not reach before.
pub proof fn lemma_last_writer_wins(c: Seq<u8>, ws: Seq<(int, Seq<u8>)>)
    requires
        forall|i: int| 0 <= i < ws.len() ==> (#[trigger] ws[i]).0 >= 0,
    ensures
        apply_writes(c, ws).len() == if reach(ws) > c.len() { reach(ws) } else { c.len() as int },
        forall|v: int| 0 <= v < apply_writes(c, ws).len() ==> #[trigger] apply_writes(c, ws)[v] == {
            let i = last_writer(ws, v);
            if i >= 0 { ws[i].1[v - ws[i].0] } else if v < c.len() { c[v] } else { 0u8 }
        },
        forall|v: int| 0 <= v < apply_writes(c, ws).len() ==> -1 <= #[trigger] last_writer(ws, v) < ws.len(),
    decreases ws.len(),
{
    if ws.len() > 0 {
        let rest = ws.drop_last();
        assert forall|i: int| 0 <= i < rest.len() implies (#[trigger] rest[i]).0 >= 0 by {
            assert(rest[i] == ws[i]);
        }
        lemma_last_writer_wins(c, rest);
        lemma_last_writer_range(rest);
        let prev = apply_writes(c, rest);
        let cur = apply_writes(c, ws);
        assert forall|v: int| 0 <= v < cur.len() implies -1 <= #[trigger] last_writer(ws, v) < ws.len() && cur[v] == {
            let i = last_writer(ws, v);
            if i >= 0 { ws[i].1[v - ws[i].0] } else if v < c.len() { c[v] } else { 0u8 }
        } by {
            let o = ws.last().0;
            let d = ws.last().1;
            if o <= v < o + d.len() {
            } else if v < prev.len() {
                assert(last_writer(ws, v) == last_writer(rest, v));
                let i = last_writer(rest, v);
                if i >= 0 {
                    assert(ws[i] == rest[i]);
                }
            } else {
                assert(last_writer(ws, v) == last_writer(rest, v));
                assert(last_writer(rest, v) == -1);
            }
        }
    }
}

proof fn lemma_last_writer_range(ws: Seq<(int, Seq<u8>)>)
    ensures
        forall|v: int| -1 <= #[trigger] last_writer(ws, v) < ws.len(),
        forall|v: int| v >= reach(ws) ==> #[trigger] last_writer(ws, v) == -1,
    decreases ws.len(),
{
    if ws.len() > 0 {
        let rest = ws.drop_last();
        lemma_last_writer_range(rest);
        assert forall|v: int| -1 <= #[trigger] last_writer(ws, v) < ws.len() by {
            if !(ws.last().0 <= v < ws.last().0 + ws.last().1.len()) {
                assert(last_writer(ws, v) == last_writer(rest, v));
            }
        }
        assert forall|v: int| v >= reach(ws) implies #[trigger] last_writer(ws, v) == -1 by {
            assert(v >= reach(rest));
            assert(last_writer(ws, v) == last_writer(rest, v));
        }
    }
}

/// Reading back, right after a write, as many bytes as were written where
/// they were written gives those bytes.
pub proof fn lemma_round_trip(c: Seq<u8>, o: int, d: Seq<u8>)
    requires
        o >= 0,
    ensures
        ({
            let c2 = overwrite(c, o, d);
            span(c2, o, o + clamp(c2.len() as int, o, d.len() as int)) == d
        }),
{
    let c2 = overwrite(c, o, d);
    if d.len() > 0 {
        assert(c2.subrange(o, o + d.len()) =~= d);
    } else {
        assert(span(c2, o, o + clamp(c2.len() as int, o, d.len() as int)) =~= d);
    }
}

/// Writing the same bytes at the same offset twice leaves the virtual file
/// as writing them once does.
pub proof fn lemma_write_twice(c: Seq<u8>, o: int, d: Seq<u8>)
    requires
        o >= 0,
    ensures
        overwrite(overwrite(c, o, d), o, d) == overwrite(c, o, d),
{
    assert(overwrite(overwrite(c, o, d), o, d) =~= overwrite(c, o, d));
}

} // verus!
