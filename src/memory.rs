//! An overlay whose three backing files live in memory. It runs the engine's
//! actions on byte vectors, and is where the engine's reads and writes are
//! shown to behave as operations on one virtual file.

use vstd::prelude::*;
use crate::blocks::Block;
use crate::engine::{Action, Event, FileId, Overlay, ReadOp, ReadPhase, SetupOp, SetupPhase, WriteOp, WritePhase, setup_resumed, finished, advanced_from, block_ok, clamp, entry_followed, overwrite, piece_of, slice_ok, write_advanced, write_resumed};
use crate::layout::{Layout, OverlayError, be_value, entry_width, pow256};

verus! {

/// The index entry of block `b`, as it stands in `diff`.
pub open spec fn entry_of(layout: Layout, diff: Seq<u8>, b: int) -> int {
    be_value(diff.subrange(b * layout.nbytes, b * layout.nbytes + layout.nbytes)) as int
}

/// The byte at virtual offset `v`: past the base's full blocks it comes from
/// the extra file; else from the diff's copy of its block where the index
/// names one, and from the base where it does not.
pub open spec fn byte_at(layout: Layout, base: Seq<u8>, diff: Seq<u8>, extra: Seq<u8>, v: int) -> u8 {
    if v >= layout.spec_base_region() {
        extra[v - layout.spec_base_region()]
    } else {
        let k = entry_of(layout, diff, v / layout.block_size as int);
        if k == 0 {
            base[v]
        } else {
            diff[layout.spec_header_len() + (k - 1) * layout.block_size + v % layout.block_size as int]
        }
    }
}

/// The virtual file that an overlay in state `ov` shows over these files.
pub open spec fn contents(ov: Overlay, base: Seq<u8>, diff: Seq<u8>, extra: Seq<u8>) -> Seq<u8> {
    Seq::new(ov.file_size as nat, |v: int| byte_at(ov.layout, base, diff, extra, v))
}

/// The index of `diff` names, for each block, no payload slot or one of its
/// own that lies whole within `diff`.
pub open spec fn index_ok(layout: Layout, diff: Seq<u8>) -> bool {
    &&& diff.len() >= layout.spec_header_len()
    &&& forall|b: int| 0 <= b < layout.nblocks ==> {
        let k = #[trigger] entry_of(layout, diff, b);
        k == 0 || layout.spec_header_len() + k * layout.block_size <= diff.len()
    }
    &&& forall|b: int, c: int| 0 <= b < layout.nblocks && 0 <= c < layout.nblocks && b != c
        && #[trigger] entry_of(layout, diff, b) != 0 ==> entry_of(layout, diff, b) != #[trigger] entry_of(layout, diff, c)
}

/// The files agree with the overlay's state.
pub open spec fn consistent(ov: Overlay, base: Seq<u8>, diff: Seq<u8>, extra: Seq<u8>) -> bool {
    &&& ov.wf()
    &&& base.len() >= ov.layout.spec_base_region()
    &&& index_ok(ov.layout, diff)
    &&& ov.file_size == ov.layout.spec_base_region() + extra.len()
    &&& diff.len() <= u64::MAX
    &&& (diff.len() - ov.layout.spec_header_len()) % ov.layout.block_size as int == 0
}

/// Writing over a part of the diff that holds neither index entries nor the
/// payload slot of another block leaves every other entry as it was.
proof fn lemma_entries_kept(layout: Layout, diff: Seq<u8>, at: int, d: Seq<u8>, x: int)
    requires
        layout.wf(),
        0 <= x < layout.nblocks,
        diff.len() >= layout.spec_header_len(),
        at >= layout.spec_header_len(),
    ensures
        entry_of(layout, overwrite(diff, at, d), x) == entry_of(layout, diff, x),
{
    let nb = layout.nbytes as int;
    assert(x * nb + nb <= layout.spec_header_len()) by (nonlinear_arith)
        requires x < layout.nblocks, nb > 0, layout.spec_header_len() == nb * layout.nblocks;
    assert(overwrite(diff, at, d).subrange(x * nb, x * nb + nb) =~= diff.subrange(x * nb, x * nb + nb));
}

/// Writing slice `b`'s bytes into the payload slot that its block already
/// has overwrites the virtual file there and nowhere else.
proof fn lemma_write_slot(ov: Overlay, base: Seq<u8>, diff: Seq<u8>, extra: Seq<u8>, b: Block, d: Seq<u8>)
    requires
        consistent(ov, base, diff, extra),
        block_ok(ov.layout, b),
        b.spec_num() < ov.layout.nblocks,
        entry_of(ov.layout, diff, b.spec_num()) != 0,
        d.len() == b.end - b.start,
    ensures
        ({
            let k = entry_of(ov.layout, diff, b.spec_num());
            let bs = ov.layout.block_size as int;
            let at = ov.layout.spec_header_len() + (k - 1) * bs + (b.start as int) % bs;
            let diff2 = overwrite(diff, at, d);
            &&& diff2.len() == diff.len()
            &&& forall|x: int| 0 <= x < ov.layout.nblocks
                ==> #[trigger] entry_of(ov.layout, diff2, x) == entry_of(ov.layout, diff, x)
            &&& consistent(ov, base, diff2, extra)
            &&& contents(ov, base, diff2, extra) == overwrite(contents(ov, base, diff, extra), b.start as int, d)
        }),
{
    let layout = ov.layout;
    let num = b.spec_num();
    let k = entry_of(layout, diff, num);
    let bs = layout.block_size as int;
    let hdr = layout.spec_header_len();
    let slot = hdr + (k - 1) * bs;
    let at = slot + (b.start as int) % bs;
    let diff2 = overwrite(diff, at, d);
    lemma_div(bs, b.start as int);
    lemma_same_block(bs, b.start as int, b.end - 1);
    assert(slot + bs == hdr + k * bs) by (nonlinear_arith) requires slot == hdr + (k - 1) * bs;
    assert(k >= 1);
    assert(slot >= hdr) by (nonlinear_arith) requires slot == hdr + (k - 1) * bs, k >= 1, bs > 0;
    assert(diff2.len() == diff.len());
    assert forall|x: int| 0 <= x < layout.nblocks implies #[trigger] entry_of(layout, diff2, x) == entry_of(layout, diff, x) by {
        lemma_entries_kept(layout, diff, at, d, x);
    }
    assert(index_ok(layout, diff2));
    assert((diff2.len() - hdr) % bs == 0);
    let c = contents(ov, base, diff, extra);
    let c2 = contents(ov, base, diff2, extra);
    assert(b.end <= layout.spec_base_region()) by (nonlinear_arith)
        requires b.end <= (num + 1) * bs, num < layout.nblocks, bs > 0, layout.spec_base_region() == layout.nblocks * bs;
    let w = overwrite(c, b.start as int, d);
    assert forall|v: int| 0 <= v < c2.len() implies #[trigger] c2[v] == w[v] by {
        assert(c2[v] == byte_at(layout, base, diff2, extra, v));
        assert(w.len() == c.len());
        assert(w[v] == if b.start <= v < b.end { d[v - b.start] } else { c[v] });
        assert(c[v] == byte_at(layout, base, diff, extra, v));
        if v < layout.spec_base_region() {
            let y = v / bs;
            let e = entry_of(layout, diff, y);
            lemma_div(bs, v);
            assert(0 <= y < layout.nblocks) by (nonlinear_arith)
                requires y == v / bs, v < layout.nblocks * bs, bs > 0, v >= 0;
            assert(entry_of(layout, diff2, y) == e);
            if e != 0 {
                let i = hdr + (e - 1) * bs + v % bs;
                if y == num {
                    lemma_same_block_of(bs, b.start as int, v);
                    assert(i - at == v - b.start);
                    assert(c2[v] == diff2[i]);
                    assert(c2[v] == w[v]);
                } else {
                    assert(e != k);
                    assert(hdr + e * bs <= diff.len());
                    assert(i < hdr + e * bs) by (nonlinear_arith)
                        requires i == hdr + (e - 1) * bs + v % bs, v % bs < bs;
                    assert(at + d.len() <= slot + bs);
                    assert(at >= slot);
                    if e < k {
                        assert(i < slot) by (nonlinear_arith)
                            requires i == hdr + (e - 1) * bs + v % bs, v % bs < bs, e < k, slot == hdr + (k - 1) * bs, bs > 0;
                    } else {
                        assert(i >= slot + bs) by (nonlinear_arith)
                            requires i == hdr + (e - 1) * bs + v % bs, v % bs >= 0, e > k, slot == hdr + (k - 1) * bs, bs > 0;
                    }
                    if b.start <= v < b.end {
                        lemma_same_block(bs, b.start as int, v);
                    }
                    assert(c2[v] == w[v]);
                }
            } else {
                if b.start <= v < b.end {
                    lemma_same_block(bs, b.start as int, v);
                }
            }
        }
    }
    assert(c2 =~= w);
}

/// Writing an index entry changes that entry and no other.
proof fn lemma_entry_written(layout: Layout, diff: Seq<u8>, num: int, e: Seq<u8>, x: int)
    requires
        layout.wf(),
        0 <= x < layout.nblocks,
        0 <= num < layout.nblocks,
        diff.len() >= layout.spec_header_len(),
        e.len() == layout.nbytes,
    ensures
        entry_of(layout, overwrite(diff, num * layout.nbytes, e), x)
            == if x == num { be_value(e) as int } else { entry_of(layout, diff, x) },
{
    let nb = layout.nbytes as int;
    let d1 = overwrite(diff, num * nb, e);
    assert(x * nb + nb <= layout.spec_header_len()) by (nonlinear_arith)
        requires x < layout.nblocks, nb > 0, layout.spec_header_len() == nb * layout.nblocks;
    assert(num * nb + nb <= layout.spec_header_len()) by (nonlinear_arith)
        requires num < layout.nblocks, nb > 0, layout.spec_header_len() == nb * layout.nblocks;
    if x == num {
        assert(d1.subrange(x * nb, x * nb + nb) =~= e);
    } else {
        if x < num {
            assert(x * nb + nb <= num * nb) by (nonlinear_arith) requires x < num, nb > 0;
        } else {
            assert(num * nb + nb <= x * nb) by (nonlinear_arith) requires x > num, nb > 0;
        }
        assert(d1.subrange(x * nb, x * nb + nb) =~= diff.subrange(x * nb, x * nb + nb));
    }
}

/// Giving slice `b`'s block a new payload slot at the end of the diff, made
/// of the base block with the slice's bytes written over it, overwrites the
/// virtual file there and nowhere else.
proof fn lemma_new_slot(ov: Overlay, base: Seq<u8>, diff: Seq<u8>, extra: Seq<u8>, b: Block, d: Seq<u8>, e: Seq<u8>)
    requires
        consistent(ov, base, diff, extra),
        block_ok(ov.layout, b),
        b.spec_num() < ov.layout.nblocks,
        entry_of(ov.layout, diff, b.spec_num()) == 0,
        d.len() == b.end - b.start,
        ov.layout.spec_position_ok(diff.len() as int),
        e.len() == ov.layout.nbytes,
        be_value(e) == ov.layout.spec_ordinal(diff.len() as int),
        diff.len() + ov.layout.block_size <= u64::MAX,
    ensures
        ({
            let layout = ov.layout;
            let bs = layout.block_size as int;
            let num = b.spec_num();
            let d1 = overwrite(diff, num * layout.nbytes, e);
            let img = overwrite(base.subrange(num * bs, num * bs + bs), (b.start as int) % bs, d);
            let d2 = overwrite(d1, diff.len() as int, img);
            &&& d1.len() == diff.len()
            &&& d2.len() == diff.len() + bs
            &&& entry_of(layout, d2, num) != 0
            &&& forall|x: int| 0 <= x < layout.nblocks && x != num
                ==> #[trigger] entry_of(layout, d2, x) == entry_of(layout, diff, x)
            &&& consistent(ov, base, d2, extra)
            &&& contents(ov, base, d2, extra) == overwrite(contents(ov, base, diff, extra), b.start as int, d)
        }),
{
    let layout = ov.layout;
    let bs = layout.block_size as int;
    let nb = layout.nbytes as int;
    let hdr = layout.spec_header_len();
    let num = b.spec_num();
    let pos = diff.len() as int;
    let k = layout.spec_ordinal(pos);
    let d1 = overwrite(diff, num * nb, e);
    let blk = base.subrange(num * bs, num * bs + bs);
    lemma_div(bs, b.start as int);
    lemma_same_block(bs, b.start as int, b.end - 1);
    assert(b.end <= layout.spec_base_region()) by (nonlinear_arith)
        requires b.end <= (num + 1) * bs, num < layout.nblocks, bs > 0, layout.spec_base_region() == layout.nblocks * bs;
    assert(num * bs + bs <= layout.spec_base_region()) by (nonlinear_arith)
        requires num < layout.nblocks, bs > 0, layout.spec_base_region() == layout.nblocks * bs;
    assert(num * nb + nb <= hdr) by (nonlinear_arith)
        requires num < layout.nblocks, nb > 0, hdr == nb * layout.nblocks;
    let img = overwrite(blk, (b.start as int) % bs, d);
    assert(img.len() == bs);
    let d2 = overwrite(d1, pos, img);
    lemma_div(bs, pos - hdr);
    assert(hdr + (k - 1) * bs == pos);
    assert(d1.len() == diff.len());
    assert(d2.len() == pos + bs);
    assert forall|x: int| 0 <= x < layout.nblocks implies #[trigger] entry_of(layout, d2, x)
        == if x == num { k } else { entry_of(layout, diff, x) } by {
        lemma_entry_written(layout, diff, num, e, x);
        lemma_entries_kept(layout, d1, pos, img, x);
    }
    assert forall|x: int| 0 <= x < layout.nblocks && x != num && #[trigger] entry_of(layout, diff, x) != 0
        implies entry_of(layout, diff, x) < k by {
        let ex = entry_of(layout, diff, x);
        assert(hdr + ex * bs <= pos);
        assert(ex <= k - 1) by (nonlinear_arith)
            requires hdr + ex * bs <= pos, hdr + (k - 1) * bs == pos, bs > 0;
    }
    assert(hdr + k * bs == d2.len()) by (nonlinear_arith)
        requires hdr + (k - 1) * bs == pos, d2.len() == pos + bs;
    assert forall|x: int| 0 <= x < layout.nblocks implies {
        let kx = #[trigger] entry_of(layout, d2, x);
        kx == 0 || hdr + kx * bs <= d2.len()
    } by {
        if x != num && entry_of(layout, diff, x) != 0 {
            assert(hdr + entry_of(layout, diff, x) * bs <= pos);
        }
    }
    assert(index_ok(layout, d2));
    assert((d2.len() - hdr) % bs == 0) by (nonlinear_arith)
        requires hdr + k * bs == d2.len(), bs > 0;
    let c = contents(ov, base, diff, extra);
    let c2 = contents(ov, base, d2, extra);
    let w = overwrite(c, b.start as int, d);
    assert forall|v: int| 0 <= v < c2.len() implies #[trigger] c2[v] == w[v] by {
        assert(c2[v] == byte_at(layout, base, d2, extra, v));
        assert(w.len() == c.len());
        assert(w[v] == if b.start <= v < b.end { d[v - b.start] } else { c[v] });
        assert(c[v] == byte_at(layout, base, diff, extra, v));
        if v < layout.spec_base_region() {
            let y = v / bs;
            lemma_div(bs, v);
            assert(0 <= y < layout.nblocks) by (nonlinear_arith)
                requires y == v / bs, v < layout.nblocks * bs, bs > 0, v >= 0;
            let ey = entry_of(layout, diff, y);
            if y == num {
                lemma_same_block_of(bs, b.start as int, v);
                assert(v == num * bs + v % bs);
                assert(c2[v] == d2[pos + v % bs]);
                assert(c2[v] == img[v % bs]);
                assert(c2[v] == w[v]);
            } else {
                if b.start <= v < b.end {
                    lemma_same_block(bs, b.start as int, v);
                }
                if ey != 0 {
                    let i = hdr + (ey - 1) * bs + v % bs;
                    assert(hdr + ey * bs <= pos);
                    assert(i < hdr + ey * bs) by (nonlinear_arith)
                        requires i == hdr + (ey - 1) * bs + v % bs, v % bs < bs;
                    assert(i >= hdr) by (nonlinear_arith)
                        requires i == hdr + (ey - 1) * bs + v % bs, v % bs >= 0, ey >= 1, bs > 0;
                    assert(c2[v] == w[v]);
                }
            }
        }
    }
    assert(c2 =~= w);
}

/// Where `v` lies in the block of `s`, it lies in the slice from `s` exactly
/// when its place in the block does.
proof fn lemma_same_block_of(bs: int, s: int, v: int)
    requires
        bs > 0,
        s >= 0,
        v >= 0,
        v / bs == s / bs,
    ensures
        v % bs - s % bs == v - s,
{
    lemma_div(bs, s);
    lemma_div(bs, v);
}

/// What reading `len` bytes at `at` returns from a file holding `s`.
pub open spec fn read_model(s: Seq<u8>, at: int, len: int) -> Seq<u8> {
    let lo = if at < s.len() { at } else { s.len() as int };
    let hi = if at + len < s.len() { at + len } else { s.len() as int };
    s.subrange(lo, hi)
}

/// Up to `len` bytes of `s` at `at`.
fn read_from(s: &Vec<u8>, at: u64, len: u64) -> (r: Vec<u8>)
    ensures
        r@ == read_model(s@, at as int, len as int),
{
    let lo: usize = if (at as u128) < (s.len() as u128) { at as usize } else { s.len() };
    let hi: usize = if (at as u128) + (len as u128) < (s.len() as u128) { (at + len) as usize } else { s.len() };
    let mut r: Vec<u8> = Vec::new();
    let mut i: usize = lo;
    while i < hi
        invariant
            lo <= i <= hi <= s@.len(),
            r@ == s@.subrange(lo as int, i as int),
        decreases hi - i,
    {
        r.push(s[i]);
        i = i + 1;
        assert(r@ =~= s@.subrange(lo as int, i as int));
    }
    r
}

/// The bytes of `c` from `lo` to `hi`, none where `hi` is not past `lo`.
pub open spec fn span(c: Seq<u8>, lo: int, hi: int) -> Seq<u8> {
    if lo >= hi { Seq::empty() } else { c.subrange(lo, hi) }
}

proof fn lemma_same_block(bs: int, s: int, v: int)
    requires
        bs > 0,
        0 <= s <= v < (s / bs + 1) * bs,
    ensures
        v / bs == s / bs,
        v % bs == s % bs + (v - s),
{
    let n = s / bs;
    assert(s == n * bs + s % bs) by (nonlinear_arith) requires bs > 0, n == s / bs;
    assert(0 <= s % bs < bs) by (nonlinear_arith) requires bs > 0;
    let w = s % bs + (v - s);
    assert(v == n * bs + w);
    assert((n + 1) * bs == n * bs + bs) by (nonlinear_arith);
    assert(0 <= w < bs);
    assert(v / bs == n && v % bs == w) by (nonlinear_arith) requires v == n * bs + w, 0 <= w < bs, bs > 0;
}

proof fn lemma_div(bs: int, x: int)
    requires
        bs > 0,
        x >= 0,
    ensures
        x == (x / bs) * bs + x % bs,
        0 <= x % bs < bs,
        x / bs >= 0,
{
    assert(x == (x / bs) * bs + x % bs && 0 <= x % bs < bs) by (nonlinear_arith) requires bs > 0;
    assert(x / bs >= 0) by (nonlinear_arith) requires bs > 0, x >= 0;
}

/// Writes `d` over `v` at `at`.
fn write_bytes(v: &mut Vec<u8>, at: u64, d: &Vec<u8>)
    requires
        at + d@.len() <= usize::MAX,
    ensures
        final(v)@ == overwrite(old(v)@, at as int, d@),
{
    if d.len() == 0 {
        assert(v@ =~= overwrite(old(v)@, at as int, d@));
        return;
    }
    let at = at as usize;
    while v.len() < at
        invariant
            at <= usize::MAX,
            v@.len() <= at || v@.len() == old(v)@.len(),
            forall|j: int| 0 <= j < v@.len() ==> #[trigger] v@[j] == if j < old(v)@.len() { old(v)@[j] } else { 0u8 },
            v@.len() >= old(v)@.len(),
        decreases at - v@.len(),
    {
        v.push(0u8);
    }
    let mut i: usize = 0;
    while i < d.len()
        invariant
            at + d@.len() <= usize::MAX,
            i <= d@.len(),
            v@.len() >= at + i,
            v@.len() == if at + i > old(v)@.len() { at + i } else { old(v)@.len() as int },
            forall|j: int| 0 <= j < v@.len() ==> #[trigger] v@[j] == if at <= j < at + i { d@[j - at] }
                else if j < old(v)@.len() { old(v)@[j] } else { 0u8 },
        decreases d@.len() - i,
    {
        if at + i < v.len() {
            v.set(at + i, d[i]);
        } else {
            v.push(d[i]);
        }
        i = i + 1;
    }
    assert(v@ =~= overwrite(old(v)@, at as int, d@));
}

/// Zero bytes, `n` of them.
pub open spec fn zeros(n: int) -> Seq<u8> {
    Seq::new(n as nat, |i: int| 0u8)
}

fn zero_bytes(n: u64) -> (r: Vec<u8>)
    requires
        n <= usize::MAX,
    ensures
        r@ == zeros(n as int),
{
    let mut r: Vec<u8> = Vec::new();
    while (r.len() as u64) < n
        invariant
            r@.len() <= n,
            r@ =~= zeros(r@.len() as int),
        decreases n - r@.len(),
    {
        r.push(0u8);
    }
    r
}

/// Writing `d` at `p`, at or before the end of the virtual file and past the
/// base's full blocks, overwrites the virtual file there.
proof fn lemma_tail(ov: Overlay, base: Seq<u8>, diff: Seq<u8>, extra: Seq<u8>, p: int, d: Seq<u8>)
    requires
        consistent(ov, base, diff, extra),
        ov.layout.spec_base_region() <= p <= ov.file_size,
        d.len() > 0,
        p + d.len() <= u64::MAX,
    ensures
        ({
            let x2 = overwrite(extra, p - ov.layout.spec_base_region(), d);
            let fs2 = if p + d.len() > ov.file_size { p + d.len() } else { ov.file_size as int };
            let ov2 = Overlay { layout: ov.layout, file_size: fs2 as u64 };
            &&& consistent(ov2, base, diff, x2)
            &&& contents(ov2, base, diff, x2) == overwrite(contents(ov, base, diff, extra), p, d)
        }),
{
    let r = ov.layout.spec_base_region();
    let x2 = overwrite(extra, p - r, d);
    let fs2 = if p + d.len() > ov.file_size { p + d.len() } else { ov.file_size as int };
    let ov2 = Overlay { layout: ov.layout, file_size: fs2 as u64 };
    assert(contents(ov2, base, diff, x2) =~= overwrite(contents(ov, base, diff, extra), p, d));
}

/// Zeros written at the end of the extra file lengthen the virtual file with
/// zeros.
proof fn lemma_gap(ov: Overlay, base: Seq<u8>, diff: Seq<u8>, extra: Seq<u8>, g: int)
    requires
        consistent(ov, base, diff, extra),
        g > 0,
        ov.file_size + g <= u64::MAX,
    ensures
        ({
            let x1 = overwrite(extra, ov.file_size - ov.layout.spec_base_region(), zeros(g));
            let ov1 = Overlay { layout: ov.layout, file_size: (ov.file_size + g) as u64 };
            let c = contents(ov, base, diff, extra);
            let c1 = contents(ov1, base, diff, x1);
            &&& consistent(ov1, base, diff, x1)
            &&& c1.len() == c.len() + g
            &&& forall|v: int| 0 <= v < c1.len() ==> #[trigger] c1[v] == if v < c.len() { c[v] } else { 0u8 }
        }),
{
}

/// Writing the data of a write slice after slice is writing it at once.
proof fn lemma_prefix_step(c0: Seq<u8>, start: int, data: Seq<u8>, p1: int, p2: int)
    requires
        0 <= start <= p1 < p2 <= start + data.len(),
    ensures
        overwrite(overwrite(c0, start, data.subrange(0, p1 - start)), p1, data.subrange(p1 - start, p2 - start))
            == overwrite(c0, start, data.subrange(0, p2 - start)),
{
    let a = overwrite(overwrite(c0, start, data.subrange(0, p1 - start)), p1, data.subrange(p1 - start, p2 - start));
    let b = overwrite(c0, start, data.subrange(0, p2 - start));
    assert(a.len() == b.len());
    assert(a =~= b);
}

/// Whether base block `x` holds some of the `len` bytes at `start`.
pub open spec fn touched(layout: Layout, start: int, len: int, x: int) -> bool {
    &&& len > 0
    &&& 0 <= x < layout.nblocks
    &&& start / (layout.block_size as int) <= x
    &&& x * layout.block_size < start + len
}

/// Every base block below `n` that holds some of the `len` bytes at `start`
/// has a payload slot in `diff`.
pub open spec fn mapped_below(layout: Layout, diff: Seq<u8>, start: int, len: int, n: int) -> bool {
    forall|x: int| touched(layout, start, len, x) && x < n ==> #[trigger] entry_of(layout, diff, x) != 0
}

/// `diff` has the length and the index entries of `diff0`.
pub open spec fn same_index(layout: Layout, diff: Seq<u8>, diff0: Seq<u8>) -> bool {
    &&& diff.len() == diff0.len()
    &&& forall|x: int| 0 <= x < layout.nblocks ==> #[trigger] entry_of(layout, diff, x) == entry_of(layout, diff0, x)
}

/// The virtual file `c0` with the first `p - start` bytes of `data` written
/// at `start`.
pub open spec fn written(c0: Seq<u8>, start: int, data: Seq<u8>, p: int) -> Seq<u8> {
    overwrite(c0, start, data.subrange(0, p - start))
}

proof fn lemma_be_value_zeros(s: Seq<u8>)
    requires
        forall|i: int| 0 <= i < s.len() ==> s[i] == 0,
    ensures
        be_value(s) == 0,
    decreases s.len(),
{
    if s.len() > 0 {
        lemma_be_value_zeros(s.drop_last());
    }
}

/// The geometry of an overlay with blocks of `block_size` bytes over a base
/// of `base_size` bytes.
pub open spec fn layout_for(block_size: u64, base_size: int) -> Layout {
    let nblocks = base_size / block_size as int;
    Layout { block_size, nblocks: nblocks as u64, nbytes: entry_width(nblocks as nat) as u64 }
}

/// The diff as setup leaves it: an empty one gets a zeroed index.
pub open spec fn set_up_diff(layout: Layout, diff: Seq<u8>) -> Seq<u8> {
    if layout.nblocks > 0 && diff.len() == 0 { zeros(layout.spec_header_len()) } else { diff }
}

/// The extra file as setup leaves it: an empty one gets the base's trailing
/// partial block.
pub open spec fn set_up_extra(layout: Layout, base: Seq<u8>, extra: Seq<u8>) -> Seq<u8> {
    if (base.len() as int) % (layout.block_size as int) != 0 && extra.len() == 0 {
        base.subrange(layout.spec_base_region(), base.len() as int)
    } else {
        extra
    }
}

/// An overlay over three byte vectors.
pub struct MemOverlay {
    overlay: Overlay,
    base: Vec<u8>,
    diff: Vec<u8>,
    extra: Vec<u8>,
}

impl MemOverlay {
    pub closed spec fn spec_overlay(&self) -> Overlay {
        self.overlay
    }

    pub closed spec fn spec_base(&self) -> Seq<u8> {
        self.base@
    }

    pub closed spec fn spec_diff(&self) -> Seq<u8> {
        self.diff@
    }

    pub closed spec fn spec_extra(&self) -> Seq<u8> {
        self.extra@
    }

    pub closed spec fn wf(&self) -> bool {
        consistent(self.overlay, self.base@, self.diff@, self.extra@)
    }

    /// The virtual file.
    pub open spec fn view(&self) -> Seq<u8> {
        contents(self.spec_overlay(), self.spec_base(), self.spec_diff(), self.spec_extra())
    }

    fn file(&self, id: FileId) -> (r: &Vec<u8>)
        ensures
            r@ == match id {
                FileId::Base => self.base@,
                FileId::Diff => self.diff@,
                FileId::Extra => self.extra@,
            },
    {
        match id {
            FileId::Base => &self.base,
            FileId::Diff => &self.diff,
            FileId::Extra => &self.extra,
        }
    }

    /// Where a setup driven over these files stands.
    closed spec fn setup_inv(&self, op: SetupOp, act: Action, bs: u64, base0: Seq<u8>, diff0: Seq<u8>, extra0: Seq<u8>) -> bool {
        let layout = layout_for(bs, base0.len() as int);
        let diff1 = set_up_diff(layout, diff0);
        &&& op.wf()
        &&& op.spec_block_size() == bs
        &&& self.base@ == base0
        &&& match op.spec_phase() {
            SetupPhase::BaseLength => act == Action::Length { file: FileId::Base }
                && self.diff@ == diff0 && self.extra@ == extra0,
            SetupPhase::DiffLength => act == Action::Length { file: FileId::Diff }
                && op.spec_layout() == layout && layout.nblocks > 0 && op.spec_base_size() == base0.len()
                && self.diff@ == diff0 && self.extra@ == extra0,
            SetupPhase::HeaderWritten => (act matches Action::Write { file, at, data }
                && file == FileId::Diff && at == layout.spec_header_len() - 1 && data@ == seq![0u8])
                && op.spec_layout() == layout && op.spec_base_size() == base0.len() && layout.nblocks > 0
                && self.diff@ == diff0 && diff0.len() == 0 && self.extra@ == extra0,
            SetupPhase::ExtraLength => act == Action::Length { file: FileId::Extra }
                && op.spec_layout() == layout && op.spec_base_size() == base0.len()
                && self.diff@ == diff1 && !(layout.nblocks > 0 && 0 < diff0.len() < layout.spec_header_len())
                && self.extra@ == extra0,
            SetupPhase::TailBytes => act == Action::Read { file: FileId::Base, at: layout.spec_base_region() as u64, len: ((base0.len() as int) % (bs as int)) as u64 }
                && op.spec_layout() == layout && op.spec_base_size() == base0.len()
                && self.diff@ == diff1 && !(layout.nblocks > 0 && 0 < diff0.len() < layout.spec_header_len())
                && self.extra@ == extra0 && extra0.len() == 0 && (base0.len() as int) % (bs as int) != 0,
            SetupPhase::TailWritten => (act matches Action::Write { file, at, data }
                && file == FileId::Extra && at == 0 && data@ == base0.subrange(layout.spec_base_region(), base0.len() as int))
                && op.spec_layout() == layout && op.spec_base_size() == base0.len()
                && self.diff@ == diff1 && !(layout.nblocks > 0 && 0 < diff0.len() < layout.spec_header_len())
                && self.extra@ == extra0 && extra0.len() == 0 && (base0.len() as int) % (bs as int) != 0,
            SetupPhase::Done => act is Finished
                && op.spec_layout() == layout
                && self.diff@ == diff1 && !(layout.nblocks > 0 && 0 < diff0.len() < layout.spec_header_len())
                && self.extra@ == set_up_extra(layout, base0, extra0)
                && op.spec_extra_size() == self.extra@.len(),
            SetupPhase::Failed(e) => act == Action::Failed(e) && e == OverlayError::CorruptedDiff
                && layout.nblocks > 0 && 0 < diff0.len() < layout.spec_header_len(),
        }
    }

    /// Sets up an overlay with blocks of `block_size` bytes over these files:
    /// an empty diff gets a zeroed index, an empty extra file the base's
    /// trailing partial block. Fails where the diff is shorter than its index.
    pub fn new(block_size: u64, base: Vec<u8>, diff: Vec<u8>, extra: Vec<u8>) -> (r: Result<MemOverlay, OverlayError>)
        requires
            block_size > 0,
            base@.len() * 8 <= usize::MAX,
            base@.len() + extra@.len() <= usize::MAX,
        ensures
            ({
                let layout = layout_for(block_size, base@.len() as int);
                let hdr = layout.spec_header_len();
                match r {
                    Err(e) => e == OverlayError::CorruptedDiff && layout.nblocks > 0 && 0 < diff@.len() < hdr,
                    Ok(m) => {
                        &&& !(layout.nblocks > 0 && 0 < diff@.len() < hdr)
                        &&& m.spec_base() == base@
                        &&& m.spec_diff() == set_up_diff(layout, diff@)
                        &&& m.spec_extra() == set_up_extra(layout, base@, extra@)
                        &&& m.spec_overlay() == (Overlay { layout, file_size: (layout.spec_base_region() + m.spec_extra().len()) as u64 })
                        &&& (m.wf() <==> index_ok(layout, m.spec_diff()) && (m.spec_diff().len() - hdr) % block_size as int == 0)
                        &&& diff@.len() == 0 ==> m.wf()
                        &&& diff@.len() == 0 && extra@.len() == 0 ==> m@ == base@
                    },
                }
            }),
    {
        let ghost base0 = base@;
        let ghost diff0 = diff@;
        let ghost extra0 = extra@;
        let ghost layout = layout_for(block_size, base@.len() as int);
        let mut m = MemOverlay {
            overlay: Overlay { layout: Layout { block_size, nblocks: 0, nbytes: 4 }, file_size: 0 },
            base,
            diff,
            extra,
        };
        let (mut op, mut act) = SetupOp::new(block_size);
        proof {
            let n = base0.len() as int;
            assert(n / block_size as int <= n) by (nonlinear_arith) requires block_size > 0, n >= 0;
        }
        loop
            invariant
                m.setup_inv(op, act, block_size, base0, diff0, extra0),
                block_size > 0,
                base0.len() * 8 <= usize::MAX,
                base0.len() + extra0.len() <= usize::MAX,
                layout == layout_for(block_size, base0.len() as int),
                base0 == base@,
                diff0 == diff@,
                extra0 == extra@,
            decreases match op.spec_phase() {
                SetupPhase::BaseLength => 6int,
                SetupPhase::DiffLength => 5int,
                SetupPhase::HeaderWritten => 4int,
                SetupPhase::ExtraLength => 3int,
                SetupPhase::TailBytes => 2int,
                SetupPhase::TailWritten => 1int,
                _ => 0int,
            },
        {
            let ghost pre = op;
            match act {
                Action::Length { file } => {
                    let l = m.file(file).len() as u64;
                    let ev = Event::Length(l);
                    let ghost gev = ev;
                    act = op.resume(ev);
                    proof {
                        let n = base0.len() as int;
                        let nbl = n / block_size as int;
                        assert(nbl <= n) by (nonlinear_arith) requires block_size > 0, n >= 0, nbl == n / block_size as int;
                        assert(!crate::engine::base_too_large(block_size, base0.len() as u64));
                        if let SetupPhase::ExtraLength = pre.spec_phase() {
                            assert(layout.spec_base_region() <= n) by (nonlinear_arith)
                                requires layout.spec_base_region() == nbl * block_size, nbl == n / block_size as int, block_size > 0;
                        }
                    }
                },
                Action::Write { file, at, data } => {
                    proof {
                        let n = base0.len() as int;
                        let nbl = layout.nblocks as int;
                        assert(nbl <= n) by (nonlinear_arith)
                            requires block_size > 0, n >= 0, nbl == n / block_size as int;
                        assert(layout.spec_header_len() <= 8 * n) by (nonlinear_arith)
                            requires layout.spec_header_len() == layout.nbytes * nbl, layout.nbytes <= 8, nbl <= n, nbl >= 0;
                        assert(layout.spec_base_region() <= n) by (nonlinear_arith)
                            requires layout.spec_base_region() == nbl * block_size, nbl == n / block_size as int, block_size > 0, n >= 0;
                    }
                    match file {
                        FileId::Diff => write_bytes(&mut m.diff, at, &data),
                        _ => write_bytes(&mut m.extra, at, &data),
                    }
                    act = op.resume(Event::Written);
                    proof {
                        if let SetupPhase::HeaderWritten = pre.spec_phase() {
                            assert(m.diff@ =~= zeros(layout.spec_header_len()));
                        } else {
                            let n = base0.len() as int;
                            assert(layout.spec_base_region() <= n) by (nonlinear_arith)
                                requires layout.spec_base_region() == (n / block_size as int) * block_size, block_size > 0, n >= 0;
                            lemma_div(block_size as int, n);
                            assert(m.extra@ =~= set_up_extra(layout, base0, extra0));
                        }
                    }
                },
                Action::Read { file, at, len } => {
                    let d = read_from(m.file(file), at, len);
                    proof {
                        let n = base0.len() as int;
                        assert(layout.spec_base_region() <= n) by (nonlinear_arith)
                            requires layout.spec_base_region() == (n / block_size as int) * block_size, block_size > 0, n >= 0;
                        lemma_div(block_size as int, n);
                        assert(d@ == base0.subrange(layout.spec_base_region(), n));
                    }
                    act = op.resume(Event::Bytes(d));
                },
                Action::Finished => {
                    let diff_len = m.diff.len();
                    let ov = op.overlay();
                    match ov {
                        Some(o) => {
                            m.overlay = o;
                        },
                        None => {
                            proof {
                                assert(false);
                            }
                        },
                    }
                    proof {
                        let n = base0.len() as int;
                        let nbl = layout.nblocks as int;
                        assert(layout.spec_base_region() <= n) by (nonlinear_arith)
                            requires layout.spec_base_region() == nbl * block_size, nbl == n / block_size as int, block_size > 0, n >= 0;
                        m.lemma_set_up(layout, base0, diff0, extra0);
                    }
                    return Ok(m);
                },
                Action::Failed(e) => {
                    return Err(e);
                },
                _ => {
                    proof {
                        assert(false);
                    }
                    return Err(OverlayError::ShortRead);
                },
            }
        }
    }

    proof fn lemma_set_up(&self, layout: Layout, base0: Seq<u8>, diff0: Seq<u8>, extra0: Seq<u8>)
        requires
            layout.wf(),
            self.overlay == (Overlay { layout, file_size: (layout.spec_base_region() + self.extra@.len()) as u64 }),
            layout.spec_base_region() + self.extra@.len() <= u64::MAX,
            base0.len() >= layout.spec_base_region(),
            layout.spec_base_region() == ((base0.len() as int) / (layout.block_size as int)) * layout.block_size,
            self.base@ == base0,
            self.diff@ == set_up_diff(layout, diff0),
            self.extra@ == set_up_extra(layout, base0, extra0),
            !(layout.nblocks > 0 && 0 < diff0.len() < layout.spec_header_len()),
            self.diff@.len() <= usize::MAX,
        ensures
            self.wf() <==> index_ok(layout, self.diff@) && (self.diff@.len() - layout.spec_header_len()) % layout.block_size as int == 0,
            diff0.len() == 0 ==> self.wf(),
            diff0.len() == 0 && extra0.len() == 0 ==> self@ == base0,
    {
        let bs = layout.block_size as int;
        let hdr = layout.spec_header_len();
        assert(self.diff@.len() >= hdr) by {
            if layout.nblocks == 0 {
                assert(hdr == 0);
            }
        }
        if diff0.len() == 0 {
            assert forall|x: int| 0 <= x < layout.nblocks implies #[trigger] entry_of(layout, self.diff@, x) == 0 by {
                let nb = layout.nbytes as int;
                assert(x * nb + nb <= hdr) by (nonlinear_arith)
                    requires x < layout.nblocks, nb > 0, hdr == nb * layout.nblocks;
                lemma_be_value_zeros(self.diff@.subrange(x * nb, x * nb + nb));
            }
            assert(self.diff@.len() == hdr) by {
                if layout.nblocks == 0 {
                    assert(hdr == 0);
                }
            }
            assert(0int % bs == 0) by (nonlinear_arith) requires bs > 0;
            if extra0.len() == 0 {
                let n = base0.len() as int;
                let region = layout.spec_base_region();
                lemma_div(bs, n);
                assert(self@.len() == n);
                assert forall|v: int| 0 <= v < n implies #[trigger] self@[v] == base0[v] by {
                    if v < region {
                        lemma_div(bs, v);
                        assert(0 <= v / bs < layout.nblocks) by (nonlinear_arith)
                            requires v < layout.nblocks * bs, bs > 0, v >= 0;
                        assert(entry_of(layout, self.diff@, v / bs) == 0);
                    }
                }
                assert(self@ =~= base0);
            }
        }
    }

    /// Length of the virtual file.
    pub fn file_size(&self) -> (r: u64)
        ensures
            r == self@.len(),
    {
        self.overlay.file_size
    }

    /// The overlay's state.
    pub fn overlay(&self) -> (r: Overlay)
        ensures
            r == self.spec_overlay(),
    {
        self.overlay
    }

    /// The base file's bytes.
    pub fn base(&self) -> (r: &Vec<u8>)
        ensures
            r@ == self.spec_base(),
    {
        &self.base
    }

    /// The diff's bytes: its index, then its payload slots.
    pub fn diff(&self) -> (r: &Vec<u8>)
        ensures
            r@ == self.spec_diff(),
    {
        &self.diff
    }

    /// The extra file's bytes.
    pub fn extra(&self) -> (r: &Vec<u8>)
        ensures
            r@ == self.spec_extra(),
    {
        &self.extra
    }

    /// Whether the diff can take a new payload slot for every base block,
    /// both in memory and in what an index entry can name.
    pub open spec fn has_room(&self) -> bool {
        let layout = self.spec_overlay().layout;
        &&& self.spec_diff().len() + layout.spec_base_region() <= usize::MAX
        &&& self.spec_diff().len() + layout.spec_base_region()
            <= layout.spec_header_len() + (pow256(layout.nbytes as nat) - 1) * layout.block_size
    }

    /// Where a write driven over these files stands: the files as they are,
    /// or as the pending action leaves them, show the virtual file `c0` with
    /// the data written up to the current slice.
    closed spec fn write_inv(&self, op: WriteOp, act: Action, c0: Seq<u8>, start: u64, data: Seq<u8>, base0: Seq<u8>, diff0: Seq<u8>, room: int) -> bool {
        let layout = self.overlay.layout;
        let bs = layout.block_size as int;
        let nbl = layout.nblocks as int;
        let ov = Overlay { layout, file_size: op.spec_file_size() };
        let base = self.base@;
        let diff = self.diff@;
        let extra = self.extra@;
        let c = contents(ov, base, diff, extra);
        &&& op.wf()
        &&& op.spec_layout() == layout
        &&& op.spec_start() == start
        &&& op.spec_data() == data
        &&& base == base0
        &&& start + data.len() <= usize::MAX
        &&& room <= usize::MAX
        &&& room <= layout.spec_header_len() + (pow256(layout.nbytes as nat) - 1) * bs
        &&& self.write_mapped(op, act, start, data, diff0)
        &&& match op.spec_phase() {
            WritePhase::Entry(b) => {
                &&& consistent(ov, base, diff, extra)
                &&& c == written(c0, start as int, data, b.start as int)
                &&& act == Action::Read { file: FileId::Diff, at: (b.spec_num() * layout.nbytes) as u64, len: layout.nbytes }
                &&& diff.len() + (nbl - b.spec_num()) * bs <= room
            },
            WritePhase::Length(b) => {
                &&& consistent(ov, base, diff, extra)
                &&& c == written(c0, start as int, data, b.start as int)
                &&& entry_of(layout, diff, b.spec_num()) == 0
                &&& act == Action::Length { file: FileId::Diff }
                &&& diff.len() + (nbl - b.spec_num()) * bs <= room
            },
            WritePhase::Indexed(b, pos) => {
                &&& consistent(ov, base, diff, extra)
                &&& c == written(c0, start as int, data, b.start as int)
                &&& entry_of(layout, diff, b.spec_num()) == 0
                &&& pos == diff.len()
                &&& layout.spec_position_ok(pos as int)
                &&& act matches Action::Write { file, at, data: e }
                &&& file == FileId::Diff
                &&& at == b.spec_num() * layout.nbytes
                &&& e@.len() == layout.nbytes
                &&& be_value(e@) == layout.spec_ordinal(pos as int)
                &&& diff.len() + (nbl - b.spec_num()) * bs <= room
            },
            WritePhase::BaseBlock(b, pos) => {
                let num = b.spec_num();
                let img = overwrite(base.subrange(num * bs, num * bs + bs), (b.start as int) % bs, piece_of(data, b));
                let d2 = overwrite(diff, pos as int, img);
                &&& consistent(ov, base, d2, extra)
                &&& contents(ov, base, d2, extra) == written(c0, start as int, data, b.end as int)
                &&& act == Action::Read { file: FileId::Base, at: (num * bs) as u64, len: bs as u64 }
                &&& pos + bs <= d2.len()
                &&& d2.len() + (nbl - num - 1) * bs <= room
            },
            WritePhase::Piece(b) => {
                &&& act matches Action::Write { file, at, data: d }
                &&& file == FileId::Diff
                &&& consistent(ov, base, overwrite(diff, at as int, d@), extra)
                &&& contents(ov, base, overwrite(diff, at as int, d@), extra) == written(c0, start as int, data, b.end as int)
                &&& at + d@.len() <= overwrite(diff, at as int, d@).len()
                &&& overwrite(diff, at as int, d@).len() + (nbl - b.spec_num() - 1) * bs <= room
            },
            WritePhase::Gap(b) => {
                &&& consistent(ov, base, diff, extra)
                &&& c == c0
                &&& b.start == start
                &&& act == Action::Zeros { file: FileId::Extra, at: (op.spec_file_size() - layout.spec_base_region()) as u64, len: (b.start - op.spec_file_size()) as u64 }
            },
            WritePhase::Tail(b) => {
                &&& consistent(ov, base, diff, extra)
                &&& act matches Action::Write { file, at, data: d }
                &&& file == FileId::Extra
                &&& at == b.start - layout.spec_base_region()
                &&& d@ == data.subrange(b.offset as int, data.len() as int)
                &&& layout.spec_base_region() <= b.start <= op.spec_file_size()
                &&& overwrite(c, b.start as int, d@) == overwrite(c0, start as int, data)
            },
            WritePhase::Done => {
                &&& act is Finished
                &&& consistent(ov, base, diff, extra)
                &&& c == overwrite(c0, start as int, data)
            },
            _ => false,
        }
    }

    /// Which base blocks of the write have a payload slot by now, and that
    /// none gets a new one where all had one before.
    closed spec fn write_mapped(&self, op: WriteOp, act: Action, start: u64, data: Seq<u8>, diff0: Seq<u8>) -> bool {
        let layout = self.overlay.layout;
        let bs = layout.block_size as int;
        let len = data.len() as int;
        let diff = self.diff@;
        let all0 = mapped_below(layout, diff0, start as int, len, layout.nblocks as int);
        match op.spec_phase() {
            WritePhase::Entry(b) => mapped_below(layout, diff, start as int, len, b.spec_num())
                && (all0 ==> same_index(layout, diff, diff0)),
            WritePhase::Length(b) => mapped_below(layout, diff, start as int, len, b.spec_num()) && !all0,
            WritePhase::Indexed(b, _) => mapped_below(layout, diff, start as int, len, b.spec_num()) && !all0,
            WritePhase::BaseBlock(b, pos) => {
                let num = b.spec_num();
                let img = overwrite(self.base@.subrange(num * bs, num * bs + bs), (b.start as int) % bs, piece_of(data, b));
                mapped_below(layout, overwrite(diff, pos as int, img), start as int, len, num + 1) && !all0
            },
            WritePhase::Piece(b) => act matches Action::Write { at, data: d, .. }
                && mapped_below(layout, overwrite(diff, at as int, d@), start as int, len, b.spec_num() + 1)
                && (all0 ==> same_index(layout, overwrite(diff, at as int, d@), diff0)),
            _ => mapped_below(layout, diff, start as int, len, layout.nblocks as int)
                && (all0 ==> same_index(layout, diff, diff0)),
        }
    }

    proof fn lemma_write_advanced(&self, pre: WriteOp, post: WriteOp, act: Action, c0: Seq<u8>, start: u64, data: Seq<u8>, base0: Seq<u8>, diff0: Seq<u8>, room: int, lim: int)
        requires
            mapped_below(self.overlay.layout, self.diff@, start as int, data.len() as int, lim),
            mapped_below(self.overlay.layout, diff0, start as int, data.len() as int, self.overlay.layout.nblocks as int)
                ==> same_index(self.overlay.layout, self.diff@, diff0),
            pre.spec_iter().remaining().len() > 0 ==> pre.spec_iter().remaining()[0].spec_num() == lim,
            pre.spec_iter().remaining().len() == 0 ==> data.len() == 0
                || pre.spec_iter().position() <= lim * self.overlay.layout.block_size,
            pre.wf(),
            post.wf(),
            write_advanced(pre, post, act),
            pre.spec_layout() == self.overlay.layout,
            pre.spec_start() == start,
            pre.spec_data() == data,
            self.base@ == base0,
            start + data.len() <= usize::MAX,
            room <= usize::MAX,
            room <= self.overlay.layout.spec_header_len() + (pow256(self.overlay.layout.nbytes as nat) - 1) * self.overlay.layout.block_size,
            ({
                let ov = Overlay { layout: self.overlay.layout, file_size: pre.spec_file_size() };
                &&& consistent(ov, self.base@, self.diff@, self.extra@)
                &&& contents(ov, self.base@, self.diff@, self.extra@)
                    == written(c0, start as int, data, pre.spec_iter().position() as int)
            }),
            pre.spec_iter().remaining().len() > 0 ==> self.diff@.len()
                + (self.overlay.layout.nblocks - pre.spec_iter().remaining()[0].spec_num()) * self.overlay.layout.block_size <= room,
        ensures
            self.write_inv(post, act, c0, start, data, base0, diff0, room),
    {
        let layout = self.overlay.layout;
        let bs = layout.block_size as int;
        let ov = Overlay { layout, file_size: pre.spec_file_size() };
        let c = contents(ov, self.base@, self.diff@, self.extra@);
        pre.lemma_wf();
        post.lemma_wf();
        pre.spec_iter().lemma_remaining();
        let rem = pre.spec_iter().remaining();
        let len = data.len() as int;
        assert(data.subrange(0, len) =~= data);
        let diff = self.diff@;
        if rem.len() == 0 {
            assert(pre.spec_iter().position() == start + len);
            assert forall|x: int| touched(layout, start as int, len, x) && x < layout.nblocks
                implies #[trigger] entry_of(layout, diff, x) != 0 by {
                assert(x < lim) by (nonlinear_arith)
                    requires x * bs < start + len, start + len <= lim * bs, bs > 0;
            }
        } else {
            let b = rem[0];
            let num = b.spec_num();
            assert(b.start == pre.spec_iter().position());
            if num >= layout.nblocks {
                lemma_div(bs, b.start as int);
                assert(num * bs >= layout.nblocks * bs) by (nonlinear_arith)
                    requires num >= layout.nblocks, bs > 0;
                assert forall|x: int| touched(layout, start as int, len, x) && x < layout.nblocks
                    implies #[trigger] entry_of(layout, diff, x) != 0 by {
                    assert(x < lim);
                }
                if b.start > pre.spec_file_size() {
                    if b.start > start {
                        assert(written(c0, start as int, data, b.start as int).len() >= b.start);
                    }
                    assert(b.start == start);
                    assert(data.subrange(0, 0) =~= Seq::<u8>::empty());
                    assert(written(c0, start as int, data, start as int) =~= c0);
                } else {
                    assert(data.subrange(b.offset as int, len) == data.subrange(b.start - start, start + len - start));
                    lemma_prefix_step(c0, start as int, data, b.start as int, start + len);
                }
            }
        }
    }

    proof fn lemma_write_read(&self, pre: WriteOp, act0: Action, ev: Event, post: WriteOp, act: Action, c0: Seq<u8>, start: u64, data: Seq<u8>, base0: Seq<u8>, diff0: Seq<u8>, room: int)
        requires
            self.write_inv(pre, act0, c0, start, data, base0, diff0, room),
            post.wf(),
            post.spec_layout() == pre.spec_layout(),
            post.spec_start() == pre.spec_start(),
            post.spec_data() == pre.spec_data(),
            write_resumed(pre, ev, post, act),
            act0 matches Action::Read { file, at, len },
            ev matches Event::Bytes(d) && act0 matches Action::Read { file, at, len }
                && d@ == read_model(self.spec_file(file), at as int, len as int),
        ensures
            self.write_inv(post, act, c0, start, data, base0, diff0, room),
    {
        let layout = self.overlay.layout;
        let bs = layout.block_size as int;
        let nb = layout.nbytes as int;
        let hdr = layout.spec_header_len();
        let nbl = layout.nblocks as int;
        let ov = Overlay { layout, file_size: pre.spec_file_size() };
        let base = self.base@;
        let diff = self.diff@;
        let extra = self.extra@;
        let c = contents(ov, base, diff, extra);
        pre.lemma_wf();
        post.lemma_wf();
        let d = ev->Bytes_0@;
        match pre.spec_phase() {
            WritePhase::Entry(b) => {
                let num = b.spec_num();
                assert(num * nb + nb <= hdr) by (nonlinear_arith)
                    requires num < layout.nblocks, nb > 0, hdr == nb * layout.nblocks;
                assert(d == diff.subrange(num * nb, num * nb + nb));
                let k = entry_of(layout, diff, num);
                let len = data.len() as int;
                lemma_div(bs, b.start as int);
                vstd::arithmetic::div_mod::lemma_div_is_ordered(start as int, b.start as int, bs);
                assert(touched(layout, start as int, len, num));
                if k != 0 {
                    assert(hdr + k * bs <= diff.len());
                    lemma_div(bs, b.start as int);
                    lemma_same_block(bs, b.start as int, b.end - 1);
                    let piece = piece_of(data, b);
                    lemma_write_slot(ov, base, diff, extra, b, piece);
                    assert(piece == data.subrange(b.start - start, b.end - start));
                    lemma_prefix_step(c0, start as int, data, b.start as int, b.end as int);
                    assert((hdr + (k - 1) * bs) + (b.start as int) % bs + (b.end - b.start) <= hdr + k * bs) by (nonlinear_arith)
                        requires (b.start as int) % bs + (b.end - 1 - b.start) < bs;
                    assert((nbl - num) * bs == (nbl - num - 1) * bs + bs) by (nonlinear_arith);
                    let at = hdr + (k - 1) * bs + (b.start as int) % bs;
                    let d2 = overwrite(diff, at, piece);
                    assert forall|x: int| touched(layout, start as int, len, x) && x < num + 1
                        implies #[trigger] entry_of(layout, d2, x) != 0 by {
                        if x < num {
                            assert(entry_of(layout, diff, x) != 0);
                        }
                    }
                }
            },
            WritePhase::BaseBlock(b, pos) => {
                let num = b.spec_num();
                assert(num * bs + bs <= layout.spec_base_region()) by (nonlinear_arith)
                    requires num < layout.nblocks, bs > 0, layout.spec_base_region() == layout.nblocks * bs;
                assert(num * bs + bs <= base.len());
                assert(d =~= base.subrange(num * bs, num * bs + bs));
            },
            _ => {},
        }
    }

    proof fn lemma_write_length(&self, pre: WriteOp, act0: Action, ev: Event, post: WriteOp, act: Action, c0: Seq<u8>, start: u64, data: Seq<u8>, base0: Seq<u8>, diff0: Seq<u8>, room: int)
        requires
            self.write_inv(pre, act0, c0, start, data, base0, diff0, room),
            post.wf(),
            post.spec_layout() == pre.spec_layout(),
            post.spec_start() == pre.spec_start(),
            post.spec_data() == pre.spec_data(),
            write_resumed(pre, ev, post, act),
            act0 matches Action::Length { file },
            ev matches Event::Length(l) && act0 matches Action::Length { file } && l == self.spec_file(file).len(),
        ensures
            self.write_inv(post, act, c0, start, data, base0, diff0, room),
    {
        let layout = self.overlay.layout;
        let bs = layout.block_size as int;
        let hdr = layout.spec_header_len();
        let nbl = layout.nblocks as int;
        let diff = self.diff@;
        pre.lemma_wf();
        if let WritePhase::Length(b) = pre.spec_phase() {
            let num = b.spec_num();
            let l = diff.len() as int;
            let pw = pow256(layout.nbytes as nat) as int;
            let q = (l - hdr) / bs;
            lemma_div(bs, l - hdr);
            assert(q * bs <= l - hdr);
            assert(l + (nbl - num) * bs <= hdr + (pw - 1) * bs);
            assert(q + 1 < pw) by (nonlinear_arith)
                requires q * bs <= l - hdr, l + (nbl - num) * bs <= hdr + (pw - 1) * bs, nbl - num >= 1, bs > 0;
            assert(layout.spec_position_ok(l));
        }
    }

    proof fn lemma_write_bound(&self, pre: WriteOp, act0: Action, c0: Seq<u8>, start: u64, data: Seq<u8>, base0: Seq<u8>, diff0: Seq<u8>, room: int)
        requires
            self.write_inv(pre, act0, c0, start, data, base0, diff0, room),
        ensures
            act0 matches Action::Write { file, at, data: d } ==> file != FileId::Base && at + d@.len() <= usize::MAX,
            act0 matches Action::Zeros { file, at, len } ==> file == FileId::Extra && at + len <= usize::MAX,
    {
        let layout = self.overlay.layout;
        let bs = layout.block_size as int;
        let nb = layout.nbytes as int;
        let hdr = layout.spec_header_len();
        let nbl = layout.nblocks as int;
        pre.lemma_wf();
        match pre.spec_phase() {
            WritePhase::Indexed(b, pos) => {
                let num = b.spec_num();
                assert(num * nb + nb <= hdr) by (nonlinear_arith)
                    requires num < layout.nblocks, nb > 0, hdr == nb * layout.nblocks;
                assert((nbl - num) * bs >= 0) by (nonlinear_arith) requires num < nbl, bs > 0;
            },
            WritePhase::Piece(b) => {
                let num = b.spec_num();
                assert((nbl - num - 1) * bs >= 0) by (nonlinear_arith) requires num < nbl, bs > 0;
            },
            _ => {},
        }
    }

    proof fn lemma_write_written(&self, s0: MemOverlay, pre: WriteOp, act0: Action, post: WriteOp, act: Action, c0: Seq<u8>, start: u64, data: Seq<u8>, base0: Seq<u8>, diff0: Seq<u8>, room: int)
        requires
            s0.write_inv(pre, act0, c0, start, data, base0, diff0, room),
            post.wf(),
            post.spec_layout() == pre.spec_layout(),
            post.spec_start() == pre.spec_start(),
            post.spec_data() == pre.spec_data(),
            write_resumed(pre, Event::Written, post, act),
            self.overlay == s0.overlay,
            act0 matches Action::Write { file, at, data: d } && {
                &&& self.base@ == s0.base@
                &&& self.diff@ == if file == FileId::Diff { overwrite(s0.diff@, at as int, d@) } else { s0.diff@ }
                &&& self.extra@ == if file == FileId::Extra { overwrite(s0.extra@, at as int, d@) } else { s0.extra@ }
            },
        ensures
            self.write_inv(post, act, c0, start, data, base0, diff0, room),
    {
        let layout = self.overlay.layout;
        let bs = layout.block_size as int;
        let nbl = layout.nblocks as int;
        let ov = Overlay { layout, file_size: pre.spec_file_size() };
        let base = s0.base@;
        let diff = s0.diff@;
        let extra = s0.extra@;
        let c = contents(ov, base, diff, extra);
        pre.lemma_wf();
        post.lemma_wf();
        match pre.spec_phase() {
            WritePhase::Indexed(b, pos) => {
                let num = b.spec_num();
                let e = act0->Write_data@;
                let piece = piece_of(data, b);
                assert((nbl - num) * bs >= bs) by (nonlinear_arith) requires num < nbl, bs > 0;
                assert(usize::MAX <= u64::MAX);
                lemma_new_slot(ov, base, diff, extra, b, piece, e);
                lemma_div(bs, b.start as int);
                lemma_same_block(bs, b.start as int, b.end - 1);
                assert(piece == data.subrange(b.start - start, b.end - start));
                lemma_prefix_step(c0, start as int, data, b.start as int, b.end as int);
                assert((nbl - num) * bs == (nbl - num - 1) * bs + bs) by (nonlinear_arith);
                if b.end - b.start == bs {
                    let blk = base.subrange(num * bs, num * bs + bs);
                    assert(overwrite(blk, (b.start as int) % bs, piece) =~= piece);
                }
            },
            WritePhase::Piece(b) => {
                let num = b.spec_num();
                let ov2 = Overlay { layout, file_size: post.spec_file_size() };
                pre.spec_iter().lemma_remaining();
                if pre.spec_iter().remaining().len() > 0 {
                    let nx = pre.spec_iter().remaining()[0];
                    assert(nx.start == (num + 1) * bs);
                    assert(nx.spec_num() == num + 1) by (nonlinear_arith)
                        requires nx.start == (num + 1) * bs, nx.spec_num() == (nx.start as int) / bs, bs > 0;
                }
                self.lemma_write_advanced(pre, post, act, c0, start, data, base0, diff0, room, num + 1);
            },
            WritePhase::Tail(b) => {
                let d = act0->Write_data@;
                lemma_tail(ov, base, diff, extra, b.start as int, d);
            },
            _ => {},
        }
    }

    proof fn lemma_write_zeros(&self, s0: MemOverlay, pre: WriteOp, act0: Action, post: WriteOp, act: Action, c0: Seq<u8>, start: u64, data: Seq<u8>, base0: Seq<u8>, diff0: Seq<u8>, room: int)
        requires
            s0.write_inv(pre, act0, c0, start, data, base0, diff0, room),
            post.wf(),
            post.spec_layout() == pre.spec_layout(),
            post.spec_start() == pre.spec_start(),
            post.spec_data() == pre.spec_data(),
            write_resumed(pre, Event::Written, post, act),
            self.overlay == s0.overlay,
            act0 matches Action::Zeros { file, at, len } && {
                &&& self.base@ == s0.base@
                &&& self.diff@ == s0.diff@
                &&& self.extra@ == overwrite(s0.extra@, at as int, zeros(len as int))
            },
        ensures
            self.write_inv(post, act, c0, start, data, base0, diff0, room),
    {
        let layout = self.overlay.layout;
        let ov = Overlay { layout, file_size: pre.spec_file_size() };
        pre.lemma_wf();
        post.lemma_wf();
        if let WritePhase::Gap(b) = pre.spec_phase() {
            let g = b.start - pre.spec_file_size();
            lemma_gap(ov, s0.base@, s0.diff@, s0.extra@, g);
            let ov1 = Overlay { layout, file_size: b.start };
            let c1 = contents(ov1, self.base@, self.diff@, self.extra@);
            assert(data.subrange(b.offset as int, data.len() as int) =~= data);
            assert(overwrite(c1, b.start as int, data) =~= overwrite(c0, start as int, data));
        }
    }

    /// Writes `data` at `start`, past the end of the virtual file if need be,
    /// and returns how many bytes were written: all of them. The base is left
    /// as it was.
    pub fn write(&mut self, start: u64, data: Vec<u8>) -> (r: u64)
        requires
            old(self).wf(),
            old(self).has_room(),
            start + data@.len() <= usize::MAX,
        ensures
            final(self).wf(),
            final(self)@ == overwrite(old(self)@, start as int, data@),
            final(self).spec_base() == old(self).spec_base(),
            r == data@.len(),
            mapped_below(final(self).spec_overlay().layout, final(self).spec_diff(), start as int, data@.len() as int,
                final(self).spec_overlay().layout.nblocks as int),
            mapped_below(old(self).spec_overlay().layout, old(self).spec_diff(), start as int, data@.len() as int,
                old(self).spec_overlay().layout.nblocks as int)
                ==> final(self).spec_diff().len() == old(self).spec_diff().len(),
    {
        let ghost c0 = self@;
        let ghost d0 = data@;
        let ghost base0 = self.base@;
        let ghost room = self.diff@.len() + self.overlay.layout.spec_base_region();
        let ghost diff0 = self.diff@;
        let n = data.len() as u64;
        let mut op = self.overlay.write(start, data);
        let ghost pre = op;
        let mut act = op.resume(Event::Written);
        proof {
            assert(d0.subrange(0, 0) =~= Seq::<u8>::empty());
            assert(written(c0, start as int, d0, start as int) =~= c0);
            pre.lemma_wf();
            pre.spec_iter().lemma_remaining();
            let layout = self.overlay.layout;
            if pre.spec_iter().remaining().len() > 0 {
                let num = pre.spec_iter().remaining()[0].spec_num();
                lemma_div(layout.block_size as int, pre.spec_iter().remaining()[0].start as int);
                assert((layout.nblocks - num) * layout.block_size <= layout.nblocks * layout.block_size) by (nonlinear_arith)
                    requires num >= 0, layout.block_size > 0;
            }
            self.lemma_write_advanced(pre, op, act, c0, start, d0, base0, diff0, room, (start / layout.block_size) as int);
        }
        loop
            invariant
                self.overlay.layout.wf(),
                self.overlay.file_size >= self.overlay.layout.spec_base_region(),
                self.write_inv(op, act, c0, start, d0, base0, diff0, room),
                n == d0.len(),
                c0 == old(self)@,
                base0 == old(self).spec_base(),
                diff0 == old(self).spec_diff(),
                self.overlay == old(self).spec_overlay(),
                d0 == data@,
            decreases op.spec_iter().remaining().len() * 8 + match op.spec_phase() {
                WritePhase::Entry(_) => 7int,
                WritePhase::Length(_) => 6int,
                WritePhase::Indexed(_, _) => 5int,
                WritePhase::BaseBlock(_, _) => 4int,
                WritePhase::Piece(_) => 3int,
                WritePhase::Gap(_) => 2int,
                WritePhase::Tail(_) => 1int,
                _ => 0int,
            },
        {
            let ghost pre = op;
            let ghost act0 = act;
            let ghost s0 = *self;
            match act {
                Action::Read { file, at, len } => {
                    let d = read_from(self.file(file), at, len);
                    let ev = Event::Bytes(d);
                    let ghost gev = ev;
                    act = op.resume(ev);
                    proof {
                        self.lemma_write_read(pre, act0, gev, op, act, c0, start, d0, base0, diff0, room);
                    }
                },
                Action::Length { file } => {
                    let l = self.file(file).len() as u64;
                    let ev = Event::Length(l);
                    let ghost gev = ev;
                    act = op.resume(ev);
                    proof {
                        self.lemma_write_length(pre, act0, gev, op, act, c0, start, d0, base0, diff0, room);
                    }
                },
                Action::Write { file, at, data } => {
                    proof {
                        self.lemma_write_bound(pre, act0, c0, start, d0, base0, diff0, room);
                    }
                    match file {
                        FileId::Base => {
                            proof {
                                assert(false);
                            }
                        },
                        FileId::Diff => write_bytes(&mut self.diff, at, &data),
                        FileId::Extra => write_bytes(&mut self.extra, at, &data),
                    }
                    act = op.resume(Event::Written);
                    proof {
                        self.lemma_write_written(s0, pre, act0, op, act, c0, start, d0, base0, diff0, room);
                    }
                },
                Action::Zeros { file, at, len } => {
                    proof {
                        self.lemma_write_bound(pre, act0, c0, start, d0, base0, diff0, room);
                    }
                    let z = zero_bytes(len);
                    write_bytes(&mut self.extra, at, &z);
                    act = op.resume(Event::Written);
                    proof {
                        self.lemma_write_zeros(s0, pre, act0, op, act, c0, start, d0, base0, diff0, room);
                    }
                },
                Action::Finished => {
                    proof {
                        assert(op.spec_phase() is Done);
                    }
                    self.overlay.finish_write(&op);
                    assert(self@ == overwrite(c0, start as int, d0));
                    return n;
                },
                Action::Failed(_) => {
                    proof {
                        assert(false);
                    }
                    return n;
                },
            }
        }
    }

    /// Where a read driven over these files stands: what it has read so far,
    /// and that the action it asks for yields the next bytes of the range.
    closed spec fn read_inv(&self, op: ReadOp, act: Action, start: u64, n: int) -> bool {
        let c = self@;
        let layout = self.overlay.layout;
        &&& op.wf()
        &&& op.spec_layout() == layout
        &&& op.spec_start() == start
        &&& op.spec_iter().end() == start + n
        &&& op.spec_iter().block_size() == layout.block_size
        &&& op.spec_iter().position() <= start + n
        &&& op.spec_phase() != ReadPhase::Blocks
        &&& !(op.spec_phase() is Failed)
        &&& op.spec_phase() is Done ==> act is Finished && op.spec_out() == span(c, start as int, start + n)
        &&& op.spec_phase() matches ReadPhase::Entry(b) ==> {
            &&& op.spec_out() == span(c, start as int, b.start as int)
            &&& b.end <= start + n
            &&& b.start >= start
            &&& b.spec_num() < layout.nblocks
            &&& act == Action::Read { file: FileId::Diff, at: (b.spec_num() * layout.nbytes) as u64, len: layout.nbytes }
        }
        &&& op.spec_phase() matches ReadPhase::Bytes(b) ==> {
            &&& op.spec_out() == span(c, start as int, b.start as int)
            &&& b.end <= start + n
            &&& b.start >= start
            &&& act matches Action::Read { file, at, len }
            &&& read_model(self.spec_file(file), at as int, len as int) == c.subrange(b.start as int, b.end as int)
        }
    }

    closed spec fn spec_file(&self, id: FileId) -> Seq<u8> {
        match id {
            FileId::Base => self.base@,
            FileId::Diff => self.diff@,
            FileId::Extra => self.extra@,
        }
    }

    proof fn lemma_advanced(&self, pre: ReadOp, post: ReadOp, act: Action, start: u64, n: int, out: Seq<u8>)
        requires
            self.wf(),
            0 <= n,
            n > 0 ==> start + n <= self.overlay.file_size,
            pre.wf(),
            pre.spec_layout() == self.overlay.layout,
            pre.spec_start() == start,
            pre.spec_iter().end() == start + n,
            pre.spec_iter().block_size() == self.overlay.layout.block_size,
            start <= pre.spec_iter().position() <= start + n,
            out == span(self@, start as int, pre.spec_iter().position() as int),
            post.wf(),
            advanced_from(pre, post, act, out),
        ensures
            self.read_inv(post, act, start, n),
    {
        let layout = self.overlay.layout;
        let c = self@;
        let bs = layout.block_size as int;
        pre.lemma_wf();
        post.lemma_wf();
        pre.spec_iter().lemma_remaining();
        let rem = pre.spec_iter().remaining();
        if rem.len() > 0 {
            let b = rem[0];
            let num = b.spec_num();
            if num >= layout.nblocks {
                lemma_div(bs, b.start as int);
                assert(num * bs >= layout.nblocks * bs) by (nonlinear_arith)
                    requires num >= layout.nblocks, bs > 0;
                assert(b.start >= layout.spec_base_region());
                let at = b.start - layout.spec_base_region();
                assert(read_model(self.extra@, at, b.end - b.start) =~= c.subrange(b.start as int, b.end as int));
            }
        } else {
            assert(pre.spec_iter().position() == start + n);
        }
    }

    proof fn lemma_followed(&self, pre: ReadOp, act0: Action, post: ReadOp, act: Action, start: u64, n: int, b: Block)
        requires
            self.wf(),
            self.read_inv(pre, act0, start, n),
            pre.spec_phase() == ReadPhase::Entry(b),
            post.wf(),
            post.spec_layout() == pre.spec_layout(),
            post.spec_start() == pre.spec_start(),
            entry_followed(pre, post, act, b, entry_of(self.overlay.layout, self.diff@, b.spec_num())),
        ensures
            self.read_inv(post, act, start, n),
    {
        let layout = self.overlay.layout;
        let c = self@;
        let bs = layout.block_size as int;
        let num = b.spec_num();
        let k = entry_of(layout, self.diff@, num);
        pre.lemma_wf();
        post.lemma_wf();
        assert(block_ok(layout, b));
        assert((num + 1) * bs <= layout.nblocks * bs) by (nonlinear_arith)
            requires num + 1 <= layout.nblocks, bs > 0;
        lemma_div(bs, b.start as int);
        assert forall|v: int| b.start <= v < b.end implies v / bs == num && #[trigger] (v % bs) == (b.start as int) % bs + (v - b.start) by {
            lemma_same_block(bs, b.start as int, v);
        }
        lemma_same_block(bs, b.start as int, b.end - 1);
        if k == 0 {
            assert(read_model(self.base@, b.start as int, b.end - b.start) =~= c.subrange(b.start as int, b.end as int));
        } else {
            let pos = layout.spec_header_len() + (k - 1) * bs;
            assert(layout.spec_header_len() + k * bs <= self.diff@.len());
            assert(pos + (b.start as int) % bs + (b.end - b.start) <= self.diff@.len()) by (nonlinear_arith)
                requires pos == layout.spec_header_len() + (k - 1) * bs,
                    layout.spec_header_len() + k * bs <= self.diff@.len(),
                    (b.start as int) % bs + (b.end - 1 - b.start) < bs;
            assert(read_model(self.diff@, pos + (b.start as int) % bs, b.end - b.start) =~= c.subrange(b.start as int, b.end as int));
        }
    }

    /// Reads up to `size` bytes at `start`, no further than the end of the
    /// virtual file.
    pub fn read(&self, start: u64, size: u64) -> (r: Vec<u8>)
        requires
            self.wf(),
        ensures
            r@ == span(self@, start as int, start + clamp(self@.len() as int, start as int, size as int)),
    {
        let ghost n = clamp(self.overlay.file_size as int, start as int, size as int);
        assert(n > 0 ==> start + n <= self@.len());
        let mut op = self.overlay.read(start, size);
        let ghost pre = op;
        let mut act = op.resume(Event::Written);
        proof {
            pre.lemma_wf();
            assert(pre.spec_out() =~= span(self@, start as int, start as int));
            self.lemma_advanced(pre, op, act, start, n, pre.spec_out());
        }
        loop
            invariant
                self.wf(),
                self.read_inv(op, act, start, n),
                n == clamp(self@.len() as int, start as int, size as int),
                n >= 0,
                n > 0 ==> start + n <= self@.len(),
            decreases op.spec_iter().remaining().len() * 2 + if op.spec_phase() is Entry { 2int } else if op.spec_phase() is Bytes { 1int } else { 0int },
        {
            match act {
                Action::Read { file, at, len } => {
                    let d = read_from(self.file(file), at, len);
                    let ghost pre = op;
                    let ghost act0 = act;
                    let ghost dv = d@;
                    act = op.resume(Event::Bytes(d));
                    proof {
                        pre.lemma_wf();
                        op.lemma_wf();
                        pre.spec_iter().lemma_remaining();
                        match pre.spec_phase() {
                            ReadPhase::Entry(b) => {
                                let layout = self.overlay.layout;
                                let num = b.spec_num();
                                assert(num * layout.nbytes + layout.nbytes <= layout.spec_header_len()) by (nonlinear_arith)
                                    requires num < layout.nblocks, layout.nbytes > 0;
                                assert(dv == self.diff@.subrange(num * layout.nbytes, num * layout.nbytes + layout.nbytes));
                                self.lemma_followed(pre, act0, op, act, start, n, b);
                            },
                            ReadPhase::Bytes(b) => {
                                assert(dv == self@.subrange(b.start as int, b.end as int));
                                assert(span(self@, start as int, b.start as int) + dv =~= span(self@, start as int, b.end as int));
                                self.lemma_advanced(pre, op, act, start, n, pre.spec_out() + dv);
                            },
                            _ => {},
                        }
                    }
                },
                Action::Finished => {
                    return op.into_bytes();
                },
                _ => {
                    proof {
                        assert(false);
                    }
                    return Vec::new();
                },
            }
        }
    }
}

} // verus!
