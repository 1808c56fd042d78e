use stembed::flash::{assemble_aligned_read, plan_aligned_read, ReadPlan};

fn memory() -> Vec<u8> {
    (0..64).collect()
}

fn chunk(start: usize, len: usize) -> Vec<u8> {
    memory()[start..start + len].to_vec()
}

#[test]
fn plan_unaligned_read() {
    let plan = plan_aligned_read(6, 11, 4);
    assert_eq!(
        plan,
        ReadPlan { leading_start: 4, leading_from: 2, leading_len: 2, core_start: 8, core_len: 8, trailing_start: 16, trailing_len: 1 }
    );
}

#[test]
fn plan_aligned_read_without_edges() {
    let plan = plan_aligned_read(8, 16, 4);
    assert_eq!(
        plan,
        ReadPlan { leading_start: 8, leading_from: 0, leading_len: 0, core_start: 8, core_len: 16, trailing_start: 24, trailing_len: 0 }
    );
}

#[test]
fn plan_short_read_at_chunk_end() {
    let plan = plan_aligned_read(3, 2, 4);
    assert_eq!(plan.leading_len, 1);
    assert_eq!(plan.core_len, 0);
    assert_eq!(plan.trailing_len, 1);
    assert_eq!(plan.trailing_start, 4);
}

#[test]
fn assembled_read_returns_memory() {
    let plan = plan_aligned_read(6, 11, 4);
    let core = chunk(plan.core_start, plan.core_len);
    let leading = chunk(plan.leading_start, 4);
    let trailing = chunk(plan.trailing_start, 4);
    let bytes = assemble_aligned_read(&plan, &core, &leading, &trailing, 4);
    assert_eq!(bytes, memory()[6..17].to_vec());
}

#[test]
fn assembled_aligned_read_ignores_edge_buffers() {
    let plan = plan_aligned_read(8, 16, 4);
    let core = chunk(8, 16);
    let bytes = assemble_aligned_read(&plan, &core, &vec![], &vec![], 4);
    assert_eq!(bytes, memory()[8..24].to_vec());
}

#[test]
fn short_read_inside_one_chunk() {
    let plan = plan_aligned_read(1, 1, 4);
    assert_eq!(
        plan,
        ReadPlan { leading_start: 0, leading_from: 1, leading_len: 1, core_start: 2, core_len: 0, trailing_start: 2, trailing_len: 0 }
    );
    let leading = chunk(plan.leading_start, 4);
    let bytes = assemble_aligned_read(&plan, &vec![], &leading, &vec![], 4);
    assert_eq!(bytes, memory()[1..2].to_vec());
}
