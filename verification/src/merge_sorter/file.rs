//! External merge sort over staged record files.
//!
//! A staged file is one sortable unit: record content in normal form
//! together with its record count, threaded downward so no stage needs to
//! re-scan.  A stage whose byte size is strictly below the in-RAM
//! threshold is loaded, sorted in memory and re-staged; a larger stage is
//! split at half its record count, both halves are sorted recursively,
//! and the two sorted results are merged.  A stage with fewer than two
//! records cannot be split and goes through the in-RAM path unchanged.
//! Three policies choose which recursion layer may offload its left half
//! to the worker pool; all of them produce identical output.

use crate::in_ram_eligible;
use crate::merge_sorter::ram;
use crate::merge_sorter::ram::{merge_seqs, sorted};
use crate::records::{
    lemma_render_roundtrip, parse_values, render_spec, render_values, values_of,
};
use crate::thread_pool::ThreadPool;
use vstd::prelude::*;

verus! {

/// Which recursion layer may offload to the worker pool.
#[derive(Clone, Copy, Debug, PartialEq, Eq, Structural)]
pub enum ExecPolicy {
    /// Both the file-splitting and the in-RAM layer may offload.
    FullPar,
    /// Only the file-splitting layer may offload.
    FilePar,
    /// Only the in-RAM layer may offload.
    RamPar,
}

/// One sortable unit of the external sort: staged record content and its
/// record count.
pub struct StagedFile {
    /// The staged bytes.
    pub content: Vec<u8>,
    /// How many records the content holds, computed when the stage is
    /// made and threaded downward.
    pub lines_count: usize,
}

impl StagedFile {
    /// The records the staged content holds.
    pub open spec fn vals(&self) -> Seq<u32> {
        values_of(self.content@)
    }

    /// Staged content is in normal form — exactly the rendering of its
    /// records, one per line — and the tracked count is exact.
    pub open spec fn wf(&self) -> bool {
        &&& self.content@ == render_spec(self.vals())
        &&& self.lines_count == self.vals().len()
    }
}

/// Stages a run of records: renders them one per line and records the
/// count.
pub fn stage_values(values: Vec<u32>) -> (staged: StagedFile)
    ensures
        staged.wf(),
        staged.vals() == values@,
{
    let lines_count = values.len();
    let content = render_values(values.as_slice());
    proof {
        lemma_render_roundtrip(values@);
    }
    StagedFile { content, lines_count }
}

/// Copies the input into the staging workspace: its records are read and
/// staged in normal form, capturing the record count for the recursion.
fn prepare_input(input: &[u8]) -> (staged: StagedFile)
    ensures
        staged.wf(),
        staged.vals() == values_of(input@),
{
    let values = parse_values(input);
    stage_values(values)
}

/// Splits a stage of at least two records into two stages: the first
/// half of the records by count, and the remainder.  A smaller stage
/// cannot be split and is handed back unchanged.
fn split_file(input: StagedFile) -> (r: Result<(StagedFile, StagedFile), StagedFile>)
    requires
        input.wf(),
    ensures
        r is Ok <==> input.vals().len() >= 2,
        r matches Ok(halves) ==> {
            &&& halves.0.wf()
            &&& halves.1.wf()
            &&& halves.0.vals() == input.vals().take(input.vals().len() as int / 2)
            &&& halves.1.vals() == input.vals().skip(input.vals().len() as int / 2)
            &&& halves.0.vals().len() < input.vals().len()
            &&& halves.1.vals().len() < input.vals().len()
        },
        r matches Err(unit) ==> unit == input,
{
    if input.lines_count < 2 {
        return Err(input);
    }
    let mut values = parse_values(input.content.as_slice());
    let middle = input.lines_count / 2;
    let right_values = values.split_off(middle);
    let left = stage_values(values);
    let right = stage_values(right_values);
    proof {
        assert(input.vals().take(input.vals().len() as int / 2) =~= left.vals());
        assert(input.vals().skip(input.vals().len() as int / 2) =~= right.vals());
    }
    Ok((left, right))
}

/// External merge of two sorted stages into one: the smaller current head
/// record is written first and ties favour the left stage, so the merge
/// is stable; the record count of the result is tracked so the caller
/// need not re-scan.  Both inputs are consumed.
pub fn merge(left: StagedFile, right: StagedFile) -> (merged: StagedFile)
    requires
        left.wf(),
        right.wf(),
        left.vals().len() + right.vals().len() <= usize::MAX,
    ensures
        merged.wf(),
        merged.vals() == merge_seqs(left.vals(), right.vals()),
        merged.vals().to_multiset() == left.vals().to_multiset().add(right.vals().to_multiset()),
        merged.lines_count == left.vals().len() + right.vals().len(),
        sorted(left.vals()) && sorted(right.vals()) ==> sorted(merged.vals()),
{
    let left_values = parse_values(left.content.as_slice());
    let right_values = parse_values(right.content.as_slice());
    let merged_values = ram::merge(left_values.as_slice(), right_values.as_slice());
    stage_values(merged_values)
}

/// In-RAM path: loads the stage's records, sorts them sequentially in
/// memory, and stages the sorted run; the input stage is consumed.
fn compute_in_ram_seq(input: StagedFile) -> (sorted_file: StagedFile)
    ensures
        sorted_file.wf(),
        sorted(sorted_file.vals()),
        sorted_file.vals().to_multiset() == values_of(input.content@).to_multiset(),
        sorted_file.vals().len() == values_of(input.content@).len(),
{
    let values = parse_values(input.content.as_slice());
    let sorted_values = ram::merge_sort_seq(values.as_slice());
    stage_values(sorted_values)
}

/// In-RAM path with the pool's remaining capacity: as the sequential
/// path, but the in-memory sort may offload halves to the pool.
fn compute_in_ram_par(input: StagedFile, pool: &mut ThreadPool) -> (sorted_file: StagedFile)
    requires
        old(pool).wf(),
    ensures
        final(pool).wf(),
        final(pool).spec_size() == old(pool).spec_size(),
        final(pool).spec_available() == old(pool).spec_available(),
        sorted_file.wf(),
        sorted(sorted_file.vals()),
        sorted_file.vals().to_multiset() == values_of(input.content@).to_multiset(),
        sorted_file.vals().len() == values_of(input.content@).len(),
{
    let values = parse_values(input.content.as_slice());
    let sorted_values = ram::merge_sort_par_helper_from_pool(values.as_slice(), pool);
    stage_values(sorted_values)
}

/// Sequential recursion: in-RAM when the stage's byte size is strictly
/// below the threshold, otherwise split, sort both halves, merge.
fn merge_sort_seq_helper(input: StagedFile, max_size_in_ram: usize) -> (out: StagedFile)
    requires
        input.wf(),
    ensures
        out.wf(),
        sorted(out.vals()),
        out.vals().to_multiset() == input.vals().to_multiset(),
        out.vals().len() == input.vals().len(),
    decreases input.vals().len(),
{
    if in_ram_eligible(input.content.len(), max_size_in_ram) {
        return compute_in_ram_seq(input);
    }
    match split_file(input) {
        Ok((left_half, right_half)) => {
            let ghost whole = input.vals();
            let left_sorted = merge_sort_seq_helper(left_half, max_size_in_ram);
            let right_sorted = merge_sort_seq_helper(right_half, max_size_in_ram);
            let merged = merge(left_sorted, right_sorted);
            proof {
                assert(whole =~= whole.take(whole.len() as int / 2) + whole.skip(
                    whole.len() as int / 2,
                ));
                vstd::seq_lib::lemma_multiset_commutative(
                    whole.take(whole.len() as int / 2),
                    whole.skip(whole.len() as int / 2),
                );
            }
            merged
        },
        Err(unit_file) => compute_in_ram_seq(unit_file),
    }
}

/// Full-parallel recursion step: offload through the pool while a worker
/// is free, and fall back to the sequential recursion for the entire
/// remaining subtree once none is.
fn merge_sort_full_par_helper(input: StagedFile, max_size_in_ram: usize, pool: &mut ThreadPool) -> (out: StagedFile)
    requires
        input.wf(),
        old(pool).wf(),
    ensures
        final(pool).wf(),
        final(pool).spec_size() == old(pool).spec_size(),
        final(pool).spec_available() == old(pool).spec_available(),
        out.wf(),
        sorted(out.vals()),
        out.vals().to_multiset() == input.vals().to_multiset(),
        out.vals().len() == input.vals().len(),
    decreases input.vals().len(), 3int,
{
    if pool.is_available() {
        merge_sort_full_par_helper_unchecked(input, max_size_in_ram, pool)
    } else {
        merge_sort_seq_helper(input, max_size_in_ram)
    }
}

/// Full-parallel step after the availability check: in-RAM with pool
/// capacity when small enough, otherwise a parallel split.
fn merge_sort_full_par_helper_unchecked(
    input: StagedFile,
    max_size_in_ram: usize,
    pool: &mut ThreadPool,
) -> (out: StagedFile)
    requires
        input.wf(),
        old(pool).wf(),
        old(pool).spec_available() > 0,
    ensures
        final(pool).wf(),
        final(pool).spec_size() == old(pool).spec_size(),
        final(pool).spec_available() == old(pool).spec_available(),
        out.wf(),
        sorted(out.vals()),
        out.vals().to_multiset() == input.vals().to_multiset(),
        out.vals().len() == input.vals().len(),
    decreases input.vals().len(), 2int,
{
    if in_ram_eligible(input.content.len(), max_size_in_ram) {
        return compute_in_ram_par(input, pool);
    }
    merge_sort_file_par(ExecPolicy::FullPar, input, max_size_in_ram, pool)
}

/// File-parallel recursion step: as the full-parallel step, but the
/// in-RAM layer always sorts sequentially.
fn merge_sort_file_par_helper(input: StagedFile, max_size_in_ram: usize, pool: &mut ThreadPool) -> (out: StagedFile)
    requires
        input.wf(),
        old(pool).wf(),
    ensures
        final(pool).wf(),
        final(pool).spec_size() == old(pool).spec_size(),
        final(pool).spec_available() == old(pool).spec_available(),
        out.wf(),
        sorted(out.vals()),
        out.vals().to_multiset() == input.vals().to_multiset(),
        out.vals().len() == input.vals().len(),
    decreases input.vals().len(), 3int,
{
    if pool.is_available() {
        merge_sort_file_par_helper_unchecked(input, max_size_in_ram, pool)
    } else {
        merge_sort_seq_helper(input, max_size_in_ram)
    }
}

/// File-parallel step after the availability check.
fn merge_sort_file_par_helper_unchecked(
    input: StagedFile,
    max_size_in_ram: usize,
    pool: &mut ThreadPool,
) -> (out: StagedFile)
    requires
        input.wf(),
        old(pool).wf(),
        old(pool).spec_available() > 0,
    ensures
        final(pool).wf(),
        final(pool).spec_size() == old(pool).spec_size(),
        final(pool).spec_available() == old(pool).spec_available(),
        out.wf(),
        sorted(out.vals()),
        out.vals().to_multiset() == input.vals().to_multiset(),
        out.vals().len() == input.vals().len(),
    decreases input.vals().len(), 2int,
{
    if in_ram_eligible(input.content.len(), max_size_in_ram) {
        return compute_in_ram_seq(input);
    }
    merge_sort_file_par(ExecPolicy::FilePar, input, max_size_in_ram, pool)
}

/// Parallel split shared by the full- and file-parallel policies: a
/// worker is reserved for the left half while the right half is sorted
/// inline, and released once both halves are joined; a stage too small
/// to split goes through the policy's in-RAM path.
fn merge_sort_file_par(
    policy: ExecPolicy,
    input: StagedFile,
    max_size_in_ram: usize,
    pool: &mut ThreadPool,
) -> (out: StagedFile)
    requires
        policy == ExecPolicy::FullPar || policy == ExecPolicy::FilePar,
        input.wf(),
        old(pool).wf(),
        old(pool).spec_available() > 0,
    ensures
        final(pool).wf(),
        final(pool).spec_size() == old(pool).spec_size(),
        final(pool).spec_available() == old(pool).spec_available(),
        out.wf(),
        sorted(out.vals()),
        out.vals().to_multiset() == input.vals().to_multiset(),
        out.vals().len() == input.vals().len(),
    decreases input.vals().len(), 1int,
{
    let ghost whole = input.vals();
    match split_file(input) {
        Ok((left_half, right_half)) => {
            let reserved = pool.try_reserve();
            proof {
                // A worker was free when this step was admitted, so the
                // reservation for the left half cannot fail.
                assert(reserved);
            }
            let left_sorted = if policy == ExecPolicy::FullPar {
                merge_sort_full_par_helper(left_half, max_size_in_ram, pool)
            } else {
                merge_sort_file_par_helper(left_half, max_size_in_ram, pool)
            };
            let right_sorted = if policy == ExecPolicy::FullPar {
                merge_sort_full_par_helper(right_half, max_size_in_ram, pool)
            } else {
                merge_sort_file_par_helper(right_half, max_size_in_ram, pool)
            };
            pool.release();
            let merged = merge(left_sorted, right_sorted);
            proof {
                assert(whole =~= whole.take(whole.len() as int / 2) + whole.skip(
                    whole.len() as int / 2,
                ));
                vstd::seq_lib::lemma_multiset_commutative(
                    whole.take(whole.len() as int / 2),
                    whole.skip(whole.len() as int / 2),
                );
            }
            merged
        },
        Err(unit_file) => {
            if policy == ExecPolicy::FullPar {
                compute_in_ram_par(unit_file, pool)
            } else {
                compute_in_ram_seq(unit_file)
            }
        },
    }
}

/// RAM-parallel recursion: the file layer always recurses sequentially,
/// and only the in-RAM layer may offload to the pool.
fn merge_sort_ram_par_helper(input: StagedFile, max_size_in_ram: usize, pool: &mut ThreadPool) -> (out: StagedFile)
    requires
        input.wf(),
        old(pool).wf(),
    ensures
        final(pool).wf(),
        final(pool).spec_size() == old(pool).spec_size(),
        final(pool).spec_available() == old(pool).spec_available(),
        out.wf(),
        sorted(out.vals()),
        out.vals().to_multiset() == input.vals().to_multiset(),
        out.vals().len() == input.vals().len(),
    decreases input.vals().len(),
{
    if in_ram_eligible(input.content.len(), max_size_in_ram) {
        return compute_in_ram_par(input, pool);
    }
    let ghost whole = input.vals();
    match split_file(input) {
        Ok((left_half, right_half)) => {
            let left_sorted = merge_sort_ram_par_helper(left_half, max_size_in_ram, pool);
            let right_sorted = merge_sort_ram_par_helper(right_half, max_size_in_ram, pool);
            let merged = merge(left_sorted, right_sorted);
            proof {
                assert(whole =~= whole.take(whole.len() as int / 2) + whole.skip(
                    whole.len() as int / 2,
                ));
                vstd::seq_lib::lemma_multiset_commutative(
                    whole.take(whole.len() as int / 2),
                    whole.skip(whole.len() as int / 2),
                );
            }
            merged
        },
        Err(unit_file) => compute_in_ram_par(unit_file, pool),
    }
}

/// Sorts record content with the sequential recursion and returns the
/// sorted content: exactly the rendering of the input's records in
/// non-decreasing order.
pub fn merge_sort_seq(input: &[u8], max_size_in_ram: usize) -> (output: Vec<u8>)
    ensures
        sorted(values_of(output@)),
        values_of(output@).to_multiset() == values_of(input@).to_multiset(),
        values_of(output@).len() == values_of(input@).len(),
        output@ == render_spec(values_of(output@)),
{
    let staged = prepare_input(input);
    let result = merge_sort_seq_helper(staged, max_size_in_ram);
    result.content
}

/// Sorts record content over a fresh pool of `threads_count` workers
/// under the chosen policy.  Every policy returns the same bytes the
/// sequential path does; only the scheduling differs.
pub fn merge_sort_par(
    input: &[u8],
    max_size_in_ram: usize,
    threads_count: usize,
    exec_policy: ExecPolicy,
) -> (output: Vec<u8>)
    requires
        threads_count >= 1,
    ensures
        sorted(values_of(output@)),
        values_of(output@).to_multiset() == values_of(input@).to_multiset(),
        values_of(output@).len() == values_of(input@).len(),
        output@ == render_spec(values_of(output@)),
{
    let staged = prepare_input(input);
    let mut pool = ThreadPool::new(threads_count);
    let result = match exec_policy {
        ExecPolicy::FullPar => merge_sort_full_par_helper(staged, max_size_in_ram, &mut pool),
        ExecPolicy::FilePar => merge_sort_file_par_helper(staged, max_size_in_ram, &mut pool),
        ExecPolicy::RamPar => merge_sort_ram_par_helper(staged, max_size_in_ram, &mut pool),
    };
    result.content
}

/// Entry point of the external sorter: a request for zero or one thread
/// runs purely sequentially and never creates a pool; otherwise the
/// policy-selected parallel recursion runs over a fresh pool.
pub fn merge_sort(
    input: &[u8],
    max_size_in_ram: usize,
    threads_count: usize,
    exec_policy: ExecPolicy,
) -> (output: Vec<u8>)
    ensures
        sorted(values_of(output@)),
        values_of(output@).to_multiset() == values_of(input@).to_multiset(),
        values_of(output@).len() == values_of(input@).len(),
        output@ == render_spec(values_of(output@)),
{
    if threads_count <= 1 {
        merge_sort_seq(input, max_size_in_ram)
    } else {
        merge_sort_par(input, max_size_in_ram, threads_count, exec_policy)
    }
}

/// Policy equivalence: two outputs over the same input that each meet the
/// sorter's contract — sorted records, the input's record multiset, and
/// normal-form rendering — are byte-for-byte identical, whatever policy
/// or thread count produced each.
pub proof fn lemma_policy_equivalence(input: Seq<u8>, out_a: Seq<u8>, out_b: Seq<u8>)
    requires
        sorted(values_of(out_a)),
        values_of(out_a).to_multiset() == values_of(input).to_multiset(),
        out_a == render_spec(values_of(out_a)),
        sorted(values_of(out_b)),
        values_of(out_b).to_multiset() == values_of(input).to_multiset(),
        out_b == render_spec(values_of(out_b)),
    ensures
        out_a == out_b,
{
    ram::lemma_sorted_unique(values_of(out_a), values_of(out_b));
}

} // verus!
