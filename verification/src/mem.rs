//! User-memory accessor.
//!
//! A user buffer is contiguous in virtual addresses but not, in general,
//! in physical memory: it may straddle page boundaries.  The accessor
//! turns (address space, user virtual address, byte length) into the
//! ordered sequence of physically addressed fragments — one per page
//! crossed — and copies raw byte images across those fragments, so the
//! kernel never dereferences a user pointer directly.
//!
//! A request over any unmapped or invalid page fails as a whole; the
//! calling syscall returns an error code instead of faulting, and no byte
//! is written.

use vstd::prelude::*;

verus! {

/// Bytes per page.
pub const PAGE_SIZE: usize = 4096;

/// Greatest physical page number the model accepts: keeps every physical
/// byte address within the machine word.
pub const MAX_PPN: usize = usize::MAX / PAGE_SIZE;

/// What a page-table lookup yields: a physical page number and a validity
/// bit.
#[derive(Clone, Copy, PartialEq, Eq, Structural, Debug)]
pub struct PageTableEntry {
    /// physical page number backing the virtual page
    pub ppn: usize,
    /// whether the mapping is present and usable
    pub valid: bool,
}

/// A user address space, modelled by its page table: entry `vpn` backs
/// virtual page `vpn`; pages beyond the table are unmapped.
pub struct AddrSpace {
    pub entries: Vec<Option<PageTableEntry>>,
}

/// One maximal contiguous physically addressed byte run of a user buffer.
#[derive(Clone, Copy, PartialEq, Eq, Structural, Debug)]
pub struct Fragment {
    /// physical address of the first byte
    pub pa: usize,
    /// bytes in the run; never 0, never crossing a page edge
    pub len: usize,
}

impl AddrSpace {
    /// Every mapped page stays within addressable physical memory.
    pub open spec fn wf(&self) -> bool {
        forall|i: int|
            0 <= i < self.entries@.len() && (#[trigger] self.entries@[i]) is Some
                ==> self.entries@[i].unwrap().ppn <= MAX_PPN
    }

    /// Virtual page `vpn` resolves to a valid mapping.
    pub open spec fn maps(&self, vpn: int) -> bool {
        &&& 0 <= vpn < self.entries@.len()
        &&& self.entries@[vpn] is Some
        &&& self.entries@[vpn].unwrap().valid
    }

    /// The physical page backing virtual page `vpn`.
    pub open spec fn ppn_of(&self, vpn: int) -> int
        recommends
            self.maps(vpn),
    {
        self.entries@[vpn].unwrap().ppn as int
    }

    /// Page-table lookup, as the translation collaborator exposes it.
    pub fn translate(&self, vpn: usize) -> (ret: Option<PageTableEntry>)
        ensures
            ret == if vpn < self.entries@.len() {
                self.entries@[vpn as int]
            } else {
                None::<PageTableEntry>
            },
    {
        if vpn < self.entries.len() {
            self.entries[vpn]
        } else {
            None
        }
    }
}

/// The physical byte address a user virtual address translates to.
pub open spec fn pa_of(space: &AddrSpace, addr: int) -> int {
    space.ppn_of(addr / (PAGE_SIZE as int)) * (PAGE_SIZE as int) + addr % (PAGE_SIZE as int)
}

/// Every page the byte range [addr, addr+len) touches is mapped (a
/// zero-length range touches none).
pub open spec fn range_mapped(space: &AddrSpace, addr: int, len: int) -> bool {
    forall|v: int|
        len > 0 && addr / (PAGE_SIZE as int) <= v <= (addr + len - 1) / (PAGE_SIZE as int)
            ==> #[trigger] space.maps(v)
}

/// The exact fragment sequence for the byte range [addr, addr+len): each
/// fragment runs from its address to the page edge, or to the end of the
/// range.
pub open spec fn frags_of(space: &AddrSpace, addr: int, len: int) -> Seq<Fragment>
    decreases len,
{
    if len <= 0 {
        Seq::empty()
    } else {
        let room = (PAGE_SIZE as int) - addr % (PAGE_SIZE as int);
        let step = if len <= room {
            len
        } else {
            room
        };
        seq![Fragment { pa: pa_of(space, addr) as usize, len: step as usize }] + frags_of(
            space,
            addr + step,
            len - step,
        )
    }
}

/// Total bytes covered by a fragment sequence.
pub open spec fn frags_len_sum(frags: Seq<Fragment>) -> int
    decreases frags.len(),
{
    if frags.len() == 0 {
        0
    } else {
        frags[0].len + frags_len_sum(frags.drop_first())
    }
}

/// Target virtual address of fragment `i`: the requested address plus
/// every earlier fragment's length — fragments are contiguous and
/// strictly increasing in target address, with no gaps and no overlaps.
pub open spec fn frag_va(addr: int, frags: Seq<Fragment>, i: int) -> int {
    addr + frags_len_sum(frags.take(i))
}

/// Fragment coverage: the fragment lengths sum exactly to the requested
/// length; every fragment is non-empty, stays within one page, and sits
/// at the physical translation of its target virtual address.  Since the
/// target address of fragment `i` is the requested address plus the
/// lengths of all earlier fragments, the sequence is contiguous and
/// strictly increasing in target address, with no gaps and no overlaps.
pub proof fn lemma_frags_cover(space: &AddrSpace, addr: int, len: int)
    requires
        len >= 0,
    ensures
        frags_len_sum(frags_of(space, addr, len)) == len,
        forall|i: int|
            0 <= i < frags_of(space, addr, len).len() ==> {
                let f = #[trigger] frags_of(space, addr, len)[i];
                let va = frag_va(addr, frags_of(space, addr, len), i);
                &&& f.len >= 1
                &&& va % (PAGE_SIZE as int) + f.len <= PAGE_SIZE
                &&& f.pa == pa_of(space, va) as usize
            },
    decreases len,
{
    let frags = frags_of(space, addr, len);
    if len > 0 {
        let room = (PAGE_SIZE as int) - addr % (PAGE_SIZE as int);
        let step = if len <= room {
            len
        } else {
            room
        };
        let rest = frags_of(space, addr + step, len - step);
        lemma_frags_cover(space, addr + step, len - step);
        assert(frags.drop_first() =~= rest);
        assert(frags[0] == Fragment { pa: pa_of(space, addr) as usize, len: step as usize });
        assert forall|i: int| 0 <= i < frags.len() implies {
            let f = #[trigger] frags[i];
            let va = frag_va(addr, frags, i);
            &&& f.len >= 1
            &&& va % (PAGE_SIZE as int) + f.len <= PAGE_SIZE
            &&& f.pa == pa_of(space, va) as usize
        } by {
            if i == 0 {
                assert(frags.take(0) =~= Seq::<Fragment>::empty());
                assert(frag_va(addr, frags, 0) == addr);
            } else {
                assert(frags[i] == rest[i - 1]);
                assert(frags.take(i).drop_first() =~= rest.take(i - 1));
                assert(frags.take(i)[0] == frags[0]);
                assert(frags_len_sum(frags.take(i)) == step + frags_len_sum(rest.take(i - 1)));
                assert(frag_va(addr, frags, i) == frag_va(addr + step, rest, i - 1));
                let f = frags[i];
                let va = frag_va(addr + step, rest, i - 1);
                assert(f.len >= 1 && va % (PAGE_SIZE as int) + f.len <= PAGE_SIZE && f.pa == pa_of(
                    space,
                    va,
                ) as usize);
            }
        }
    }
}

/// Produce the ordered fragment sequence for `len` bytes at user address
/// `addr`, splitting at every page boundary; `None` when any page in the
/// range has no valid mapping — the caller must then fail the syscall
/// rather than touch memory.
pub fn translate_range(space: &AddrSpace, addr: usize, len: usize) -> (ret: Option<Vec<Fragment>>)
    requires
        space.wf(),
        addr + len <= usize::MAX,
    ensures
        ret is Some <==> range_mapped(space, addr as int, len as int),
        ret matches Some(f) ==> f@ == frags_of(space, addr as int, len as int),
{
    let mut frags: Vec<Fragment> = Vec::new();
    let mut cur: usize = addr;
    let mut rem: usize = len;
    while rem > 0
        invariant
            space.wf(),
            addr + len <= usize::MAX,
            cur == addr + len - rem,
            rem <= len,
            frags_of(space, addr as int, len as int) == frags@ + frags_of(
                space,
                cur as int,
                rem as int,
            ),
            range_mapped(space, addr as int, len as int) <==> range_mapped(
                space,
                cur as int,
                rem as int,
            ),
        decreases rem,
    {
        let vpn = cur / PAGE_SIZE;
        let off = cur % PAGE_SIZE;
        let entry = match space.translate(vpn) {
            Some(e) => e,
            None => {
                proof {
                    assert(!space.maps(cur as int / (PAGE_SIZE as int)));
                    assert(!range_mapped(space, cur as int, rem as int));
                }
                return None;
            },
        };
        if !entry.valid {
            proof {
                assert(!space.maps(cur as int / (PAGE_SIZE as int)));
                assert(!range_mapped(space, cur as int, rem as int));
            }
            return None;
        }
        let room = PAGE_SIZE - off;
        let step = if rem <= room {
            rem
        } else {
            room
        };
        let pa = entry.ppn * PAGE_SIZE + off;
        let ghost frags0 = frags@;
        frags.push(Fragment { pa, len: step });
        proof {
            assert(space.maps(cur as int / (PAGE_SIZE as int)));
            assert(pa as int == pa_of(space, cur as int));
            let tail = frags_of(space, cur as int + step as int, rem as int - step as int);
            assert(frags_of(space, cur as int, rem as int) == seq![
                Fragment { pa, len: step },
            ] + tail);
            assert(frags0 + frags_of(space, cur as int, rem as int) =~= frags@ + tail);
        }
        cur = cur + step;
        rem = rem - step;
        proof {
            // the page just covered was mapped, so the remaining range is
            // mapped exactly when the whole one is
            let ps = PAGE_SIZE as int;
            let oldcur = cur as int - step as int;
            let oldrem = rem as int + step as int;
            assert(space.maps(oldcur / ps));
            assert(oldcur == ps * (oldcur / ps) + oldcur % ps);
            if range_mapped(space, oldcur, oldrem) {
                assert forall|v: int|
                    rem > 0 && cur as int / ps <= v <= (cur as int + rem - 1) / ps
                        implies #[trigger] space.maps(v) by {
                    assert(oldcur / ps <= v <= (oldcur + oldrem - 1) / ps);
                }
            }
            if range_mapped(space, cur as int, rem as int) || rem == 0 {
                assert forall|v: int|
                    oldrem > 0 && oldcur / ps <= v <= (oldcur + oldrem - 1) / ps
                        implies #[trigger] space.maps(v) by {
                    if v > oldcur / ps {
                        // then the whole-page step was taken and v lies in
                        // the remaining range
                        assert(rem > 0);
                        assert(cur as int == ps * (oldcur / ps) + ps);
                        assert(cur as int / ps == oldcur / ps + 1);
                        assert(cur as int / ps <= v);
                    }
                }
            }
            assert(range_mapped(space, addr as int, len as int) <==> range_mapped(
                space,
                cur as int,
                rem as int,
            ));
        }
    }
    proof {
        assert(frags@ + frags_of(space, cur as int, 0) =~= frags@);
        assert(range_mapped(space, cur as int, 0));
    }
    Some(frags)
}



/// Every page the space maps lies inside the physical memory.
pub open spec fn space_in_mem(space: &AddrSpace, memlen: int) -> bool {
    forall|v: int|
        #[trigger] space.maps(v) ==> (space.ppn_of(v) + 1) * (PAGE_SIZE as int) <= memlen
}

/// Fragments of a fully mapped range address bytes inside the memory the
/// space maps into.
pub proof fn lemma_frags_in_bounds(space: &AddrSpace, addr: int, len: int, memlen: int)
    requires
        space.wf(),
        0 <= addr,
        0 <= len,
        range_mapped(space, addr, len),
        space_in_mem(space, memlen),
    ensures
        frags_in_bounds(frags_of(space, addr, len), memlen),
    decreases len,
{
    if len > 0 {
        let ps = PAGE_SIZE as int;
        let frags = frags_of(space, addr, len);
        let room = ps - addr % ps;
        let step = if len <= room {
            len
        } else {
            room
        };
        assert(space.maps(addr / ps));
        let ppn = space.ppn_of(addr / ps);
        assert((ppn + 1) * ps <= memlen);
        assert(pa_of(space, addr) == ppn * ps + addr % ps);
        assert(pa_of(space, addr) + step <= (ppn + 1) * ps);
        assert(0 <= pa_of(space, addr) <= usize::MAX) by {
            assert(ppn <= MAX_PPN);
            assert(ppn * ps <= (MAX_PPN as int) * ps) by (nonlinear_arith)
                requires
                    0 <= ppn <= MAX_PPN as int,
                    ps == PAGE_SIZE as int,
            ;
        }
        assert(range_mapped(space, addr + step, len - step)) by {
            assert forall|v: int|
                len - step > 0 && (addr + step) / ps <= v <= (addr + step + (len - step) - 1)
                    / ps implies #[trigger] space.maps(v) by {
                assert(addr / ps <= v <= (addr + len - 1) / ps);
            }
        }
        lemma_frags_in_bounds(space, addr + step, len - step, memlen);
        let rest = frags_of(space, addr + step, len - step);
        assert forall|i: int| 0 <= i < frags.len() implies (#[trigger] frags[i]).pa
            + frags[i].len <= memlen by {
            if i > 0 {
                assert(frags[i] == rest[i - 1]);
            }
        }
    }
}

/// Physical memory, as the byte array the fragments address.
pub struct PhysMem {
    pub bytes: Vec<u8>,
}

/// `mem` with `data` overwritten at physical address `pa`.
pub open spec fn splat(mem: Seq<u8>, pa: int, data: Seq<u8>) -> Seq<u8> {
    Seq::new(
        mem.len(),
        |i: int|
            if pa <= i < pa + data.len() {
                data[i - pa]
            } else {
                mem[i]
            },
    )
}

/// Memory after `data` is split at the fragment boundaries and copied
/// into the fragments in order.
pub open spec fn write_frags(mem: Seq<u8>, frags: Seq<Fragment>, data: Seq<u8>) -> Seq<u8>
    decreases frags.len(),
{
    if frags.len() == 0 {
        mem
    } else {
        write_frags(
            splat(mem, frags[0].pa as int, data.take(frags[0].len as int)),
            frags.drop_first(),
            data.skip(frags[0].len as int),
        )
    }
}

/// The bytes the fragments address, concatenated in order.
pub open spec fn read_frags(mem: Seq<u8>, frags: Seq<Fragment>) -> Seq<u8>
    decreases frags.len(),
{
    if frags.len() == 0 {
        Seq::empty()
    } else {
        mem.subrange(frags[0].pa as int, frags[0].pa + frags[0].len) + read_frags(
            mem,
            frags.drop_first(),
        )
    }
}

/// Every fragment addresses bytes inside the memory.
pub open spec fn frags_in_bounds(frags: Seq<Fragment>, memlen: int) -> bool {
    forall|i: int| 0 <= i < frags.len() ==> (#[trigger] frags[i]).pa + frags[i].len <= memlen
}

/// No two fragments share a physical byte.
pub open spec fn frags_disjoint(frags: Seq<Fragment>) -> bool {
    forall|i: int, j: int|
        0 <= i < j < frags.len() ==> (#[trigger] frags[i]).pa + frags[i].len <= (
        #[trigger] frags[j]).pa || frags[j].pa + frags[j].len <= frags[i].pa
}

/// Fragment sums never go negative.
pub proof fn lemma_frags_len_sum_nonneg(frags: Seq<Fragment>)
    ensures
        frags_len_sum(frags) >= 0,
    decreases frags.len(),
{
    if frags.len() > 0 {
        lemma_frags_len_sum_nonneg(frags.drop_first());
    }
}

/// Writing keeps the memory size.
proof fn lemma_write_frags_len(mem: Seq<u8>, frags: Seq<Fragment>, data: Seq<u8>)
    ensures
        write_frags(mem, frags, data).len() == mem.len(),
    decreases frags.len(),
{
    if frags.len() > 0 {
        lemma_write_frags_len(
            splat(mem, frags[0].pa as int, data.take(frags[0].len as int)),
            frags.drop_first(),
            data.skip(frags[0].len as int),
        );
    }
}

/// A byte outside every fragment is untouched by a write.
proof fn lemma_write_frags_outside(mem: Seq<u8>, frags: Seq<Fragment>, data: Seq<u8>, p: int)
    requires
        0 <= p < mem.len(),
        frags_len_sum(frags) <= data.len(),
        forall|i: int|
            0 <= i < frags.len() ==> !((#[trigger] frags[i]).pa <= p < frags[i].pa + frags[i].len),
    ensures
        write_frags(mem, frags, data)[p] == mem[p],
    decreases frags.len(),
{
    if frags.len() > 0 {
        lemma_frags_len_sum_nonneg(frags.drop_first());
        let m1 = splat(mem, frags[0].pa as int, data.take(frags[0].len as int));
        assert forall|i: int|
            0 <= i < frags.drop_first().len() implies !((#[trigger] frags.drop_first()[i]).pa <= p
            < frags.drop_first()[i].pa + frags.drop_first()[i].len) by {
            assert(frags.drop_first()[i] == frags[i + 1]);
        }
        lemma_write_frags_outside(m1, frags.drop_first(), data.skip(frags[0].len as int), p);
        assert(m1[p] == mem[p]);
    }
}

/// Round-trip: writing a byte image across disjoint, in-bounds fragments
/// and reading it back through the same fragments reproduces the image
/// exactly.
pub proof fn lemma_write_read_roundtrip(mem: Seq<u8>, frags: Seq<Fragment>, data: Seq<u8>)
    requires
        frags_in_bounds(frags, mem.len() as int),
        frags_disjoint(frags),
        frags_len_sum(frags) == data.len(),
    ensures
        read_frags(write_frags(mem, frags, data), frags) == data,
    decreases frags.len(),
{
    if frags.len() == 0 {
        assert(read_frags(write_frags(mem, frags, data), frags) =~= data);
    } else {
        let f0 = frags[0];
        let l0 = f0.len as int;
        let rest = frags.drop_first();
        lemma_frags_len_sum_nonneg(rest);
        let m1 = splat(mem, f0.pa as int, data.take(l0));
        let w = write_frags(mem, frags, data);
        assert(w == write_frags(m1, rest, data.skip(l0)));
        lemma_write_frags_len(m1, rest, data.skip(l0));
        assert forall|i: int|
            0 <= i < rest.len() implies (#[trigger] rest[i]).pa + rest[i].len <= m1.len()
            && (f0.pa + f0.len <= rest[i].pa || rest[i].pa + rest[i].len <= f0.pa) by {
            assert(rest[i] == frags[i + 1]);
        }
        assert forall|a: int, b: int| 0 <= a < b < rest.len() implies (#[trigger] rest[a]).pa
            + rest[a].len <= (#[trigger] rest[b]).pa || rest[b].pa + rest[b].len <= rest[a].pa by {
            assert(rest[a] == frags[a + 1] && rest[b] == frags[b + 1]);
        }
        lemma_write_read_roundtrip(m1, rest, data.skip(l0));
        // the first fragment's bytes survive the later writes
        assert(frags_len_sum(rest) <= data.skip(l0).len());
        assert forall|p: int| f0.pa <= p < f0.pa + f0.len implies w[p] == m1[p] by {
            lemma_write_frags_outside(m1, rest, data.skip(l0), p);
        }
        assert(w.subrange(f0.pa as int, f0.pa + f0.len) =~= data.take(l0));
        assert(read_frags(w, frags) == w.subrange(f0.pa as int, f0.pa + f0.len) + read_frags(
            w,
            rest,
        ));
        // reading the rest sees only the rest's bytes, all written by the
        // recursive write
        assert(read_frags(w, rest) == data.skip(l0));
        assert(data.take(l0) + data.skip(l0) =~= data);
    }
}

/// Copy `data` into the fragments, splitting it exactly at the fragment
/// boundaries, in target-address order.
pub fn write_fragments(mem: &mut PhysMem, frags: &Vec<Fragment>, data: &Vec<u8>)
    requires
        frags_in_bounds(frags@, old(mem).bytes@.len() as int),
        frags_len_sum(frags@) == data@.len(),
    ensures
        final(mem).bytes@ == write_frags(old(mem).bytes@, frags@, data@),
{
    let ghost mem0 = mem.bytes@;
    let n_mem = mem.bytes.len();
    let n_data = data.len();
    proof {
        assert(frags@.skip(0) =~= frags@);
        assert(data@.skip(0) =~= data@);
    }
    let mut i: usize = 0;
    let mut off: usize = 0;
    while i < frags.len()
        invariant
            frags_in_bounds(frags@, mem.bytes@.len() as int),
            mem.bytes@.len() == n_mem,
            data@.len() == n_data,
            i <= frags@.len(),
            off <= data@.len(),
            off == data@.len() - frags_len_sum(frags@.skip(i as int)),
            mem.bytes@.len() == mem0.len(),
            write_frags(mem0, frags@, data@) == write_frags(
                mem.bytes@,
                frags@.skip(i as int),
                data@.skip(off as int),
            ),
        decreases frags@.len() - i,
    {
        let f = frags[i];
        proof {
            lemma_frags_len_sum_nonneg(frags@.skip(i as int));
            lemma_frags_len_sum_nonneg(frags@.skip(i + 1));
            assert(frags@.skip(i as int).drop_first() =~= frags@.skip(i + 1));
            assert(frags@.skip(i as int)[0] == f);
        }
        let ghost mstart = mem.bytes@;
        let mut j: usize = 0;
        while j < f.len
            invariant
                0 <= j <= f.len,
                f.pa + f.len <= mem.bytes@.len(),
                off + f.len <= data@.len(),
                mem.bytes@.len() == n_mem,
                data@.len() == n_data,
                mem.bytes@.len() == mstart.len(),
                forall|p: int|
                    0 <= p < mem.bytes@.len() ==> mem.bytes@[p] == (if f.pa <= p < f.pa + j {
                        data@[off + (p - f.pa)]
                    } else {
                        mstart[p]
                    }),
            decreases f.len - j,
        {
            mem.bytes[f.pa + j] = data[off + j];
            j = j + 1;
        }
        proof {
            assert(mem.bytes@ =~= splat(
                mstart,
                f.pa as int,
                data@.skip(off as int).take(f.len as int),
            )) by {
                assert forall|p: int| 0 <= p < mem.bytes@.len() implies mem.bytes@[p] == splat(
                    mstart,
                    f.pa as int,
                    data@.skip(off as int).take(f.len as int),
                )[p] by {
                    if f.pa <= p < f.pa + f.len {
                        assert(data@.skip(off as int).take(f.len as int)[p - f.pa] == data@[off + (
                        p - f.pa)]);
                    }
                }
            }
            assert(data@.skip(off as int).skip(f.len as int) =~= data@.skip(off + f.len));
        }
        i = i + 1;
        off = off + f.len;
    }
    proof {
        assert(frags@.skip(frags@.len() as int) =~= Seq::<Fragment>::empty());
        assert(write_frags(mem0, frags@, data@) =~= mem.bytes@);
    }
}

/// Read the fragments' bytes back in order, linearizing the buffer.
pub fn read_fragments(mem: &PhysMem, frags: &Vec<Fragment>) -> (out: Vec<u8>)
    requires
        frags_in_bounds(frags@, mem.bytes@.len() as int),
    ensures
        out@ == read_frags(mem.bytes@, frags@),
{
    let mut out: Vec<u8> = Vec::new();
    let n_mem = mem.bytes.len();
    proof {
        assert(frags@.skip(0) =~= frags@);
    }
    let mut i: usize = 0;
    while i < frags.len()
        invariant
            frags_in_bounds(frags@, mem.bytes@.len() as int),
            mem.bytes@.len() == n_mem,
            i <= frags@.len(),
            out@ + read_frags(mem.bytes@, frags@.skip(i as int)) == read_frags(
                mem.bytes@,
                frags@,
            ),
        decreases frags@.len() - i,
    {
        let f = frags[i];
        proof {
            assert(frags@.skip(i as int)[0] == f);
            assert(frags@.skip(i as int).drop_first() =~= frags@.skip(i + 1));
        }
        let ghost out0 = out@;
        let mut j: usize = 0;
        while j < f.len
            invariant
                0 <= j <= f.len,
                f.pa + f.len <= mem.bytes@.len(),
                mem.bytes@.len() == n_mem,
                out@ == out0 + mem.bytes@.subrange(f.pa as int, f.pa + j),
            decreases f.len - j,
        {
            let b = mem.bytes[f.pa + j];
            out.push(b);
            proof {
                assert(out@ =~= out0 + mem.bytes@.subrange(f.pa as int, f.pa + j + 1));
            }
            j = j + 1;
        }
        proof {
            assert(out@ + read_frags(mem.bytes@, frags@.skip(i + 1)) =~= out0 + read_frags(
                mem.bytes@,
                frags@.skip(i as int),
            ));
        }
        i = i + 1;
    }
    proof {
        assert(frags@.skip(frags@.len() as int) =~= Seq::<Fragment>::empty());
        assert(out@ =~= read_frags(mem.bytes@, frags@));
    }
    out
}


/// Fragment `i` of a mapped range lies wholly within the physical page
/// backing virtual page `addr / PAGE_SIZE + i`: the walk crosses into
/// the next virtual page with every fragment.
pub proof fn lemma_frags_on_pages(space: &AddrSpace, addr: int, len: int)
    requires
        space.wf(),
        0 <= addr,
        0 <= len,
        range_mapped(space, addr, len),
    ensures
        forall|i: int|
            0 <= i < frags_of(space, addr, len).len() ==> {
                let f = #[trigger] frags_of(space, addr, len)[i];
                let v = addr / (PAGE_SIZE as int) + i;
                &&& v <= (addr + len - 1) / (PAGE_SIZE as int)
                &&& space.ppn_of(v) * (PAGE_SIZE as int) <= f.pa
                &&& f.pa + f.len <= (space.ppn_of(v) + 1) * (PAGE_SIZE as int)
                &&& f.pa + f.len <= usize::MAX as int + 1
            },
    decreases len,
{
    if len > 0 {
        let ps = PAGE_SIZE as int;
        let frags = frags_of(space, addr, len);
        let room = ps - addr % ps;
        let step = if len <= room {
            len
        } else {
            room
        };
        assert(space.maps(addr / ps));
        let ppn = space.ppn_of(addr / ps);
        assert(pa_of(space, addr) == ppn * ps + addr % ps);
        assert(0 <= pa_of(space, addr) <= usize::MAX) by {
            assert(ppn <= MAX_PPN);
            assert(ppn * ps <= (MAX_PPN as int) * ps) by (nonlinear_arith)
                requires
                    0 <= ppn <= MAX_PPN as int,
                    ps == PAGE_SIZE as int,
            ;
        }
        assert(range_mapped(space, addr + step, len - step)) by {
            assert forall|v: int|
                len - step > 0 && (addr + step) / ps <= v <= (addr + step + (len - step) - 1)
                    / ps implies #[trigger] space.maps(v) by {
                assert(addr / ps <= v <= (addr + len - 1) / ps);
            }
        }
        lemma_frags_on_pages(space, addr + step, len - step);
        let rest = frags_of(space, addr + step, len - step);
        assert forall|i: int| 0 <= i < frags.len() implies {
            let f = #[trigger] frags[i];
            let v = addr / ps + i;
            &&& v <= (addr + len - 1) / ps
            &&& space.ppn_of(v) * ps <= f.pa
            &&& f.pa + f.len <= (space.ppn_of(v) + 1) * ps
            &&& f.pa + f.len <= usize::MAX as int + 1
        } by {
            if i == 0 {
                assert(frags[0] == Fragment {
                    pa: pa_of(space, addr) as usize,
                    len: step as usize,
                });
                assert(addr / ps <= (addr + len - 1) / ps);
            } else {
                assert(frags[i] == rest[i - 1]);
                // a non-final fragment fills its page, so the next one
                // starts exactly one virtual page later
                assert(step == room);
                assert(addr + step == ps * (addr / ps) + ps);
                assert((addr + step) / ps == addr / ps + 1);
                assert((addr + step + (len - step) - 1) / ps == (addr + len - 1) / ps);
            }
        }
    }
}

/// When the pages of a mapped range back onto pairwise distinct physical
/// pages, the range's fragments are pairwise disjoint in physical
/// memory.
pub proof fn lemma_frags_of_disjoint(space: &AddrSpace, addr: int, len: int)
    requires
        space.wf(),
        0 <= addr,
        0 <= len,
        range_mapped(space, addr, len),
        forall|v1: int, v2: int|
            addr / (PAGE_SIZE as int) <= v1 < v2 <= (addr + len - 1) / (PAGE_SIZE as int)
                ==> space.ppn_of(v1) != space.ppn_of(v2),
    ensures
        frags_disjoint(frags_of(space, addr, len)),
{
    let ps = PAGE_SIZE as int;
    let frags = frags_of(space, addr, len);
    lemma_frags_on_pages(space, addr, len);
    assert forall|i: int, j: int| 0 <= i < j < frags.len() implies (#[trigger] frags[i]).pa
        + frags[i].len <= (#[trigger] frags[j]).pa || frags[j].pa + frags[j].len
        <= frags[i].pa by {
        let vi = addr / ps + i;
        let vj = addr / ps + j;
        assert(space.ppn_of(vi) * ps <= frags[i].pa && frags[i].pa + frags[i].len <= (space.ppn_of(
            vi,
        ) + 1) * ps && vi <= (addr + len - 1) / ps);
        assert(space.ppn_of(vj) * ps <= frags[j].pa && frags[j].pa + frags[j].len <= (space.ppn_of(
            vj,
        ) + 1) * ps && vj <= (addr + len - 1) / ps);
        assert(addr / ps <= vi < vj);
        assert(space.ppn_of(vi) != space.ppn_of(vj));
        if space.ppn_of(vi) < space.ppn_of(vj) {
            assert((space.ppn_of(vi) + 1) * ps <= space.ppn_of(vj) * ps) by (nonlinear_arith)
                requires
                    space.ppn_of(vi) + 1 <= space.ppn_of(vj),
                    ps == PAGE_SIZE as int,
            ;
        } else {
            assert((space.ppn_of(vj) + 1) * ps <= space.ppn_of(vi) * ps) by (nonlinear_arith)
                requires
                    space.ppn_of(vj) + 1 <= space.ppn_of(vi),
                    ps == PAGE_SIZE as int,
            ;
        }
    }
}

/// Round-trip through a user buffer: when the buffer's pages are mapped,
/// lie inside physical memory and back onto pairwise distinct physical
/// pages, writing a byte image through the buffer's fragments and
/// reading it back through the same fragments reproduces the image
/// exactly — at any offset, page-straddling or not.
pub proof fn lemma_user_buffer_roundtrip(
    space: &AddrSpace,
    mem: Seq<u8>,
    addr: int,
    len: int,
    data: Seq<u8>,
)
    requires
        space.wf(),
        0 <= addr,
        0 <= len,
        data.len() == len,
        range_mapped(space, addr, len),
        space_in_mem(space, mem.len() as int),
        forall|v1: int, v2: int|
            addr / (PAGE_SIZE as int) <= v1 < v2 <= (addr + len - 1) / (PAGE_SIZE as int)
                ==> space.ppn_of(v1) != space.ppn_of(v2),
    ensures
        read_frags(
            write_frags(mem, frags_of(space, addr, len), data),
            frags_of(space, addr, len),
        ) == data,
{
    lemma_frags_cover(space, addr, len);
    lemma_frags_in_bounds(space, addr, len, mem.len() as int);
    lemma_frags_of_disjoint(space, addr, len);
    lemma_write_read_roundtrip(mem, frags_of(space, addr, len), data);
}

} // verus!
