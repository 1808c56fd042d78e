//! Reading an arbitrary range of flash memory that can only be read in aligned chunks.
//!
//! A read of `len` bytes at `offset` is split into a leading chunk (up to the next aligned
//! address), a core of whole chunks, and a trailing chunk. The leading and trailing chunks are
//! read in full into chunk-sized buffers and only the wanted bytes are kept.
use vstd::prelude::*;

verus! {

/// Where the three reads of an aligned read go.
#[derive(Debug, Clone, Copy, PartialEq, Eq)]
pub struct ReadPlan {
    /// Aligned address of the chunk holding the leading bytes
    pub leading_start: usize,
    /// Position in the leading chunk of the first wanted byte
    pub leading_from: usize,
    /// Number of bytes wanted from the leading chunk: those before the first aligned address,
    /// or all of them when the read ends before it
    pub leading_len: usize,
    /// Aligned address of the core read
    pub core_start: usize,
    /// Number of bytes read as whole chunks
    pub core_len: usize,
    /// Aligned address of the chunk holding the trailing bytes
    pub trailing_start: usize,
    /// Number of bytes after the last whole chunk
    pub trailing_len: usize,
}

/// Number of bytes from `offset` up to the next multiple of `read_size`.
pub open spec fn leading_len_of(offset: int, read_size: int) -> int {
    (read_size - offset % read_size) % read_size
}

/// The plan splits the `len` bytes at `offset` into a leading part taken from the aligned
/// chunk holding `offset`, whole aligned chunks, and a trailing part shorter than a chunk.
pub open spec fn is_plan_for(plan: ReadPlan, offset: int, len: int, read_size: int) -> bool {
    &&& plan.leading_len < read_size
    &&& (plan.leading_start as int) % read_size == 0
    &&& plan.leading_start + plan.leading_from == offset
    &&& plan.leading_from + plan.leading_len <= read_size
    &&& plan.core_start == offset + plan.leading_len
    &&& (plan.core_len as int) % read_size == 0
    &&& plan.core_len + plan.trailing_len > 0 ==> (plan.core_start as int) % read_size == 0
    &&& plan.trailing_start == plan.core_start + plan.core_len
    &&& plan.trailing_len < read_size
    &&& plan.leading_len + plan.core_len + plan.trailing_len == len
}

/// Splits a read of `len` bytes at `offset`, any range, into aligned reads of `read_size`
/// chunks.
pub fn plan_aligned_read(offset: u32, len: usize, read_size: usize) -> (r: ReadPlan)
    requires
        read_size > 0,
        offset + len <= usize::MAX,
    ensures
        is_plan_for(r, offset as int, len as int, read_size as int),
        r.leading_len == if len < leading_len_of(offset as int, read_size as int) {
            len as int
        } else {
            leading_len_of(offset as int, read_size as int)
        },
{
    let offset = offset as usize;
    let misalignment = offset % read_size;
    let leading_len = (read_size - misalignment) % read_size;
    assert(misalignment <= offset && misalignment < read_size) by (nonlinear_arith)
        requires
            misalignment == offset % read_size,
            read_size > 0,
    ;
    let leading_start = offset - misalignment;
    if len < leading_len {
        proof {
            let rs = read_size as int;
            let o = offset as int;
            let m = misalignment as int;
            assert(m > 0) by {
                if m == 0 {
                    assert(rs % rs == 0) by (nonlinear_arith)
                        requires
                            rs > 0,
                    ;
                }
            }
            assert((rs - m) % rs == rs - m) by (nonlinear_arith)
                requires
                    rs > 0,
                    0 < m < rs,
            ;
            assert(o - m == (o / rs) * rs) by (nonlinear_arith)
                requires
                    rs > 0,
                    m == o % rs,
            ;
            assert(((o / rs) * rs) % rs == 0) by (nonlinear_arith)
                requires
                    rs > 0,
            ;
            assert(0int % rs == 0);
        }
        return ReadPlan {
            leading_start,
            leading_from: misalignment,
            leading_len: len,
            core_start: offset + len,
            core_len: 0,
            trailing_start: offset + len,
            trailing_len: 0,
        };
    }
    let chunks = (len - leading_len) / read_size;
    assert(chunks * read_size <= len - leading_len) by (nonlinear_arith)
        requires
            chunks == (len - leading_len) as usize / read_size,
            read_size > 0,
            leading_len <= len,
    ;
    let core_len = chunks * read_size;
    let core_start = offset + leading_len;
    let trailing_len = len - core_len - leading_len;
    let trailing_start = core_start + core_len;
    proof {
        let rs = read_size as int;
        let rest = len as int - leading_len as int;
        let o = offset as int;
        let m = misalignment as int;
        assert(core_len as int == (rest / rs) * rs);
        assert((rest / rs) * rs <= rest && ((rest / rs) * rs) % rs == 0 && rest - (rest / rs) * rs < rs) by (nonlinear_arith)
            requires
                rs > 0,
                rest >= 0,
        ;
        assert(m == o % rs);
        if m == 0 {
            assert(rs % rs == 0) by (nonlinear_arith)
                requires
                    rs > 0,
            ;
        } else {
            assert((rs - m) % rs == rs - m) by (nonlinear_arith)
                requires
                    rs > 0,
                    0 < m < rs,
            ;
            assert(o + (rs - m) == (o / rs + 1) * rs) by (nonlinear_arith)
                requires
                    rs > 0,
                    m == o % rs,
            ;
            assert(((o / rs + 1) * rs) % rs == 0) by (nonlinear_arith)
                requires
                    rs > 0,
            ;
        }
        assert(o - m == (o / rs) * rs) by (nonlinear_arith)
            requires
                rs > 0,
                m == o % rs,
        ;
        assert(((o / rs) * rs) % rs == 0) by (nonlinear_arith)
            requires
                rs > 0,
        ;
    }
    ReadPlan { leading_start, leading_from: misalignment, leading_len, core_start, core_len, trailing_start, trailing_len }
}

/// Bytes of an aligned read: the end of the leading chunk, the core, and the beginning of
/// the trailing chunk.
pub open spec fn assembled(plan: ReadPlan, core: Seq<u8>, leading: Seq<u8>, trailing: Seq<u8>, read_size: int) -> Seq<u8> {
    let head = if plan.leading_len > 0 {
        leading.subrange(plan.leading_from as int, plan.leading_from + plan.leading_len)
    } else {
        Seq::empty()
    };
    let tail = if plan.trailing_len > 0 { trailing.subrange(0, plan.trailing_len as int) } else { Seq::empty() };
    head + core + tail
}

/// Puts the three reads of an aligned read together: `core` holds the whole chunks, `leading`
/// and `trailing` the chunks read for the leading and trailing bytes (ignored when there are
/// none).
pub fn assemble_aligned_read(plan: &ReadPlan, core: &Vec<u8>, leading: &Vec<u8>, trailing: &Vec<u8>, read_size: usize) -> (r: Vec<u8>)
    requires
        plan.leading_len < read_size,
        plan.leading_from + plan.leading_len <= read_size,
        plan.trailing_len < read_size,
        plan.leading_len > 0 ==> leading@.len() == read_size,
        plan.trailing_len > 0 ==> trailing@.len() == read_size,
    ensures
        r@ == assembled(*plan, core@, leading@, trailing@, read_size as int),
{
    let mut bytes: Vec<u8> = Vec::new();
    let ghost head = if plan.leading_len > 0 {
        leading@.subrange(plan.leading_from as int, plan.leading_from + plan.leading_len)
    } else {
        Seq::<u8>::empty()
    };
    if plan.leading_len > 0 {
        let end = plan.leading_from + plan.leading_len;
        let mut i: usize = plan.leading_from;
        while i < end
            invariant
                0 < plan.leading_len < read_size,
                end == plan.leading_from + plan.leading_len,
                plan.leading_from <= i <= end <= read_size == leading@.len(),
                bytes@ == leading@.subrange(plan.leading_from as int, i as int),
            decreases end - i,
        {
            bytes.push(leading[i]);
            i += 1;
            assert(bytes@ =~= leading@.subrange(plan.leading_from as int, i as int));
        }
    }
    assert(bytes@ == head);
    let mut i: usize = 0;
    while i < core.len()
        invariant
            i <= core@.len(),
            bytes@ == head + core@.take(i as int),
        decreases core@.len() - i,
    {
        bytes.push(core[i]);
        i += 1;
        assert(bytes@ =~= head + core@.take(i as int));
    }
    assert(core@.take(core@.len() as int) =~= core@);
    if plan.trailing_len > 0 {
        let mut i: usize = 0;
        while i < plan.trailing_len
            invariant
                i <= plan.trailing_len < read_size == trailing@.len(),
                bytes@ == head + core@ + trailing@.subrange(0, i as int),
            decreases plan.trailing_len - i,
        {
            bytes.push(trailing[i]);
            i += 1;
            assert(bytes@ =~= head + core@ + trailing@.subrange(0, i as int));
        }
    } else {
        assert(bytes@ =~= head + core@ + Seq::<u8>::empty());
    }
    bytes
}

/// An aligned read returns the memory at the requested range: when the core holds the
/// memory of the whole chunks and the leading and trailing buffers hold the memory of their
/// chunks, the assembled bytes are the memory from `offset` for `len` bytes.
pub proof fn lemma_aligned_read(
    memory: Seq<u8>,
    offset: int,
    len: int,
    read_size: int,
    plan: ReadPlan,
    core: Seq<u8>,
    leading: Seq<u8>,
    trailing: Seq<u8>,
)
    requires
        read_size > 0,
        0 <= offset,
        is_plan_for(plan, offset, len, read_size),
        core == memory.subrange(plan.core_start as int, plan.core_start + plan.core_len),
        plan.leading_len > 0 ==> leading == memory.subrange(plan.leading_start as int, plan.leading_start + read_size),
        plan.trailing_len > 0 ==> trailing == memory.subrange(plan.trailing_start as int, plan.trailing_start + read_size),
        offset + len <= memory.len(),
        plan.trailing_len > 0 ==> plan.trailing_start + read_size <= memory.len(),
        plan.leading_len > 0 ==> plan.leading_start + read_size <= memory.len(),
    ensures
        assembled(plan, core, leading, trailing, read_size) == memory.subrange(offset, offset + len),
{
    let result = assembled(plan, core, leading, trailing, read_size);
    let l = plan.leading_len as int;
    let c = plan.core_len as int;
    let head = if plan.leading_len > 0 {
        leading.subrange(plan.leading_from as int, plan.leading_from + plan.leading_len)
    } else {
        Seq::empty()
    };
    assert(head =~= memory.subrange(offset, offset + l));
    let tail = if plan.trailing_len > 0 { trailing.subrange(0, plan.trailing_len as int) } else { Seq::empty() };
    assert(tail =~= memory.subrange(offset + l + c, offset + len));
    assert(result == head + core + tail);
    assert(result =~= memory.subrange(offset, offset + len));
}

} // verus!
