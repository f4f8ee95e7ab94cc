//! Geometry of the sidecars and the codec of the diff's index slots.

use vstd::prelude::*;

verus! {

/// Why an overlay operation stopped.
#[derive(Debug, PartialEq, Eq, Structural, Clone, Copy)]
pub enum OverlayError {
    /// The diff is shorter than its index, or an index entry cannot be
    /// written or followed.
    CorruptedDiff,
    /// A backing file returned fewer bytes than were asked for.
    ShortRead,
    /// The sizes of the files do not fit in 64 bits together.
    TooLarge,
}

/// `256` to the power `n`.
pub open spec fn pow256(n: nat) -> nat
    decreases n,
{
    if n == 0 { 1 } else { (256 * pow256((n - 1) as nat)) as nat }
}

/// The unsigned integer that `s` encodes, most significant byte first.
pub open spec fn be_value(s: Seq<u8>) -> nat
    decreases s.len(),
{
    if s.len() == 0 { 0 } else { (be_value(s.drop_last()) * 256 + s.last()) as nat }
}

proof fn lemma_pow256_positive(n: nat)
    ensures
        pow256(n) >= 1,
    decreases n,
{
    if n > 0 {
        lemma_pow256_positive((n - 1) as nat);
    }
}

proof fn lemma_be_value_bound(s: Seq<u8>)
    ensures
        be_value(s) < pow256(s.len()),
    decreases s.len(),
{
    if s.len() > 0 {
        lemma_be_value_bound(s.drop_last());
        let a = be_value(s.drop_last()) as int;
        let p = pow256((s.len() - 1) as nat) as int;
        let l = s.last() as int;
        assert(a * 256 + l < p * 256) by (nonlinear_arith) requires a < p, 0 <= l < 256;
    }
}

proof fn lemma_be_value_prepend(d: u8, s: Seq<u8>)
    ensures
        be_value(seq![d] + s) == d * pow256(s.len()) + be_value(s),
    decreases s.len(),
{
    let t = seq![d] + s;
    if s.len() == 0 {
        assert(t.drop_last() =~= Seq::<u8>::empty());
        assert(t.last() == d);
        assert(be_value(t) == be_value(t.drop_last()) * 256 + t.last());
        assert(be_value(Seq::<u8>::empty()) == 0);
        assert(pow256(0) == 1);
    } else {
        assert(t.drop_last() =~= seq![d] + s.drop_last());
        lemma_be_value_prepend(d, s.drop_last());
        let p = pow256((s.len() - 1) as nat) as int;
        let b = be_value(s.drop_last()) as int;
        assert(t.last() == s.last());
        assert(pow256(s.len()) == 256 * p);
        assert(be_value(t) == be_value(t.drop_last()) * 256 + t.last());
        assert(be_value(s) == b * 256 + s.last());
        assert((d * p + b) * 256 + s.last() == d * (256 * p) + (b * 256 + s.last())) by (nonlinear_arith);
    }
}

/// Reads a big-endian unsigned integer of at most eight bytes.
pub fn decode_be(bytes: &[u8]) -> (r: u64)
    requires
        bytes@.len() <= 8,
    ensures
        r == be_value(bytes@),
{
    let mut acc: u64 = 0;
    let mut i: usize = 0;
    while i < bytes.len()
        invariant
            i <= bytes@.len() <= 8,
            acc == be_value(bytes@.subrange(0, i as int)),
        decreases bytes@.len() - i,
    {
        proof {
            lemma_be_value_bound(bytes@.subrange(0, i as int));
            assert(pow256(i as nat) <= pow256(7)) by {
                lemma_pow256_mono(i as nat, 7);
            }
            assert(pow256(7) == 0x100000000000000) by {
                reveal_with_fuel(pow256, 8);
            }
            assert(bytes@.subrange(0, i + 1).drop_last() =~= bytes@.subrange(0, i as int));
        }
        acc = acc * 256 + bytes[i] as u64;
        i = i + 1;
    }
    proof {
        assert(bytes@.subrange(0, i as int) =~= bytes@);
    }
    acc
}

proof fn lemma_pow256_mono(a: nat, b: nat)
    requires
        a <= b,
    ensures
        pow256(a) <= pow256(b),
    decreases b,
{
    if a < b {
        lemma_pow256_mono(a, (b - 1) as nat);
        lemma_pow256_positive((b - 1) as nat);
    }
}

/// Writes `value` as a big-endian unsigned integer of `width` bytes.
pub fn encode_be(value: u64, width: u64) -> (r: Vec<u8>)
    requires
        width <= 8,
        value < pow256(width as nat),
    ensures
        r@.len() == width,
        be_value(r@) == value,
{
    let mut r: Vec<u8> = Vec::new();
    let mut v: u64 = value;
    let mut i: u64 = 0;
    assert(pow256(0) == 1 && be_value(r@) == 0);
    while i < width
        invariant
            i <= width <= 8,
            r@.len() == i,
            value == v * pow256(i as nat) + be_value(r@),
            value < pow256(width as nat),
        decreases width - i,
    {
        let d: u8 = (v % 256) as u8;
        proof {
            lemma_be_value_prepend(d, r@);
            let p = pow256(i as nat) as int;
            let vi = v as int;
            assert(vi * p == (vi / 256) * (256 * p) + (vi % 256) * p) by (nonlinear_arith);
        }
        let ghost old_r = r@;
        r.insert(0, d);
        assert(r@ =~= seq![d] + old_r);
        assert(pow256((i + 1) as nat) == 256 * pow256(i as nat));
        v = v / 256;
        i = i + 1;
    }
    proof {
        lemma_be_value_bound(r@);
        if v > 0 {
            let p = pow256(width as nat) as int;
            assert(v * p >= p) by (nonlinear_arith) requires v >= 1, p >= 0;
        }
    }
    r
}

/// Width in bytes of an index entry for a base of `nblocks` full blocks.
pub open spec fn entry_width(nblocks: nat) -> nat {
    if nblocks < 0x1_0000_0000 { 4 } else { 8 }
}

/// The fixed geometry of an overlay, settled when it is set up.
#[derive(Debug, PartialEq, Eq, Structural, Clone, Copy)]
pub struct Layout {
    pub block_size: u64,
    /// Number of full blocks in the base file.
    pub nblocks: u64,
    /// Width of one index entry: 4 or 8.
    pub nbytes: u64,
}

impl Layout {
    pub open spec fn wf(&self) -> bool {
        &&& self.block_size > 0
        &&& self.nbytes == entry_width(self.nblocks as nat)
        &&& self.nbytes * self.nblocks <= u64::MAX
        &&& self.nblocks * self.block_size <= u64::MAX
    }

    /// Length of the index at the head of the diff.
    pub open spec fn spec_header_len(&self) -> int {
        self.nbytes * self.nblocks
    }

    /// Length of the virtual file's part that lies over full base blocks.
    pub open spec fn spec_base_region(&self) -> int {
        self.nblocks * self.block_size
    }

    /// Diff offset of the payload slot that ordinal `k` names, if any.
    pub open spec fn spec_slot_position(&self, k: int) -> Option<int> {
        if k == 0 { None } else { Some(self.spec_header_len() + (k - 1) * self.block_size) }
    }

    /// Whether `pos` is a diff offset that an index entry can name.
    pub open spec fn spec_position_ok(&self, pos: int) -> bool {
        &&& pos >= self.spec_header_len()
        &&& (pos - self.spec_header_len()) % self.block_size as int == 0
        &&& (pos - self.spec_header_len()) / self.block_size as int + 1 < pow256(self.nbytes as nat)
    }

    /// The one-based ordinal that names the payload slot at `pos`.
    pub open spec fn spec_ordinal(&self, pos: int) -> int {
        (pos - self.spec_header_len()) / self.block_size as int + 1
    }

    /// The geometry for a base file of `base_size` bytes.
    pub fn new(block_size: u64, base_size: u64) -> (r: Layout)
        requires
            block_size > 0,
            base_size / block_size * 8 <= u64::MAX,
        ensures
            r.wf(),
            r.block_size == block_size,
            r.nblocks == base_size / block_size,
    {
        let nblocks = base_size / block_size;
        let nbytes: u64 = if nblocks < 0x1_0000_0000 { 4 } else { 8 };
        assert(nblocks * block_size <= base_size) by (nonlinear_arith)
            requires nblocks == base_size / block_size, block_size > 0;
        Layout { block_size, nblocks, nbytes }
    }

    pub fn header_len(&self) -> (r: u64)
        requires
            self.wf(),
        ensures
            r == self.spec_header_len(),
    {
        self.nbytes * self.nblocks
    }

    pub fn base_region(&self) -> (r: u64)
        requires
            self.wf(),
        ensures
            r == self.spec_base_region(),
    {
        self.nblocks * self.block_size
    }

    /// Diff offset of the index entry of block `block_num`.
    pub fn entry_offset(&self, block_num: u64) -> (r: u64)
        requires
            self.wf(),
            block_num < self.nblocks,
        ensures
            r == block_num * self.nbytes,
            r + self.nbytes <= self.spec_header_len(),
    {
        assert(block_num * self.nbytes + self.nbytes <= self.nbytes * self.nblocks) by (nonlinear_arith)
            requires block_num < self.nblocks, self.nbytes > 0;
        block_num * self.nbytes
    }

    /// Follows an index entry as read from the diff: `None` for an entry that
    /// is zero, else the diff offset of the payload slot it names.
    pub fn read_index(&self, entry: &[u8]) -> (r: Result<Option<u64>, OverlayError>)
        requires
            self.wf(),
            entry@.len() == self.nbytes,
        ensures
            match self.spec_slot_position(be_value(entry@) as int) {
                None => r == Ok::<Option<u64>, OverlayError>(None),
                Some(pos) => if pos <= u64::MAX {
                    r == Ok::<Option<u64>, OverlayError>(Some(pos as u64))
                } else {
                    r == Err::<Option<u64>, OverlayError>(OverlayError::CorruptedDiff)
                },
            },
    {
        let k = decode_be(entry);
        if k == 0 {
            return Ok(None);
        }
        let hdr = self.header_len();
        let room = u64::MAX - hdr;
        if (k - 1) > room / self.block_size {
            assert((k - 1) * self.block_size > room) by (nonlinear_arith)
                requires (k - 1) > room / self.block_size, self.block_size > 0;
            return Err(OverlayError::CorruptedDiff);
        }
        assert((k - 1) * self.block_size <= room) by (nonlinear_arith)
            requires (k - 1) <= room / self.block_size, self.block_size > 0;
        Ok(Some(hdr + (k - 1) * self.block_size))
    }

    /// The index entry that names the payload slot at diff offset `pos`,
    /// refused where `pos` is not the start of a payload slot or its ordinal
    /// does not fit in an entry.
    pub fn write_index(&self, pos: u64) -> (r: Result<Vec<u8>, OverlayError>)
        requires
            self.wf(),
        ensures
            self.spec_position_ok(pos as int) <==> r is Ok,
            r is Err ==> r == Err::<Vec<u8>, OverlayError>(OverlayError::CorruptedDiff),
            r matches Ok(e) ==> e@.len() == self.nbytes && be_value(e@) == self.spec_ordinal(pos as int),
    {
        let hdr = self.header_len();
        if pos < hdr || (pos - hdr) % self.block_size != 0 {
            return Err(OverlayError::CorruptedDiff);
        }
        let q = (pos - hdr) / self.block_size;
        let limit: u64 = if self.nbytes == 4 { 0xffff_ffff } else { 0xffff_ffff_ffff_ffff };
        proof {
            reveal_with_fuel(pow256, 9);
        }
        if q >= limit {
            return Err(OverlayError::CorruptedDiff);
        }
        Ok(encode_be(q + 1, self.nbytes))
    }
}

} // verus!

verus! {

/// An index entry written for the payload slot of ordinal `k` names, when
/// followed back, the offset it was written for.
pub proof fn lemma_index_round_trip(layout: Layout, k: int)
    requires
        layout.wf(),
        1 <= k < pow256(layout.nbytes as nat),
        layout.spec_header_len() + (k - 1) * layout.block_size <= u64::MAX,
    ensures
        ({
            let pos = layout.spec_header_len() + (k - 1) * layout.block_size;
            &&& layout.spec_position_ok(pos)
            &&& layout.spec_ordinal(pos) == k
            &&& layout.spec_slot_position(layout.spec_ordinal(pos)) == Some(pos)
        }),
{
    let b = layout.block_size as int;
    let m = k - 1;
    assert((m * b) % b == 0 && (m * b) / b == m) by (nonlinear_arith) requires b > 0, m >= 0;
}

} // verus!
