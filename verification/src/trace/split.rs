//! Splitting a traced execution into what the circuits are made from.
use crate::trace::execution::Execution;
use crate::trace::logs;
use crate::trace::logs::file_open;
use crate::trace::records;
use crate::trace::records::{
    final_register_values, split_touched_words, FinalRegisterValue, TouchedWord,
};
use std::collections::HashMap;
use vstd::prelude::*;

verus! {

/// What a tracer has recorded when an execution ends: `D` is what it keeps of a chunk, `R` what it
/// keeps of a delegation request.
pub struct TracerRecords<D, R> {
    pub traced_chunks: Vec<D>,
    pub trace_chunk: D,
    pub register_last_live_timestamps: [u64; 32],
    pub ram_words_last_live_timestamps: Vec<u64>,
    pub access_bitmask: Vec<u64>,
    pub all_per_type_logs: HashMap<u16, Vec<Vec<R>>>,
    pub current_per_type_logs: HashMap<u16, Vec<R>>,
}

/// What the circuits of an execution are made from.
pub struct SplitExecution<D, R> {
    pub final_pc: u32,
    pub main_circuit_traces: Vec<D>,
    pub delegation_traces: HashMap<u16, Vec<Vec<R>>>,
    pub register_final_values: Vec<FinalRegisterValue>,
    pub lazy_init_teardown_data: Vec<Vec<TouchedWord>>,
}

/// Whether records belong to an execution: they have a chunk for every circuit, the words that they
/// say were touched exist, and ranges of the given sizes make up those words.
pub open spec fn fits<D, R>(
    records: TracerRecords<D, R>,
    execution: Execution,
    sizes: Seq<usize>,
) -> bool {
    &&& records.traced_chunks@.len() + 1 == execution.circuits_needed
    &&& records::is_record(
        records.access_bitmask@,
        execution.ram@,
        records.ram_words_last_live_timestamps@,
    )
    &&& records::total(sizes, sizes.len() as int) == records.access_bitmask@.len()
}

/// What an execution and its records are split into: all chunks, all delegation batches, the last
/// values of the registers, and those of the touched words in consecutive ranges.
pub open spec fn is_split<D, R>(
    r: SplitExecution<D, R>,
    execution: Execution,
    records: TracerRecords<D, R>,
    sizes: Seq<usize>,
) -> bool {
    &&& r.final_pc == execution.final_pc
    &&& r.main_circuit_traces@ == records.traced_chunks@.push(records.trace_chunk)
    &&& r.main_circuit_traces@.len() == execution.circuits_needed
    &&& forall|kind: u16| #[trigger]
        r.delegation_traces@.contains_key(kind) <==> records.all_per_type_logs@.contains_key(kind)
            || logs::open_of(records.current_per_type_logs@, kind).len() > 0
    &&& forall|kind: u16| #[trigger]
        logs::batches(r.delegation_traces@, kind) == logs::batches(
            records.all_per_type_logs@,
            kind,
        ) + logs::open_of(records.current_per_type_logs@, kind)
    &&& r.register_final_values@ == Seq::new(
        32,
        |i: int|
            FinalRegisterValue {
                value: execution.registers@[i],
                last_access_timestamp: records.register_last_live_timestamps@[i],
            },
    )
    &&& r.lazy_init_teardown_data@.len() == sizes.len()
    &&& forall|i: int|
        0 <= i < sizes.len() ==> #[trigger] r.lazy_init_teardown_data@[i]@
            == records::touched_words(
            records.access_bitmask@,
            execution.ram@,
            records.ram_words_last_live_timestamps@,
            64 * records::total(sizes, i),
            64 * records::total(sizes, i + 1),
        )
}

/// Closes the open chunk and the open delegation batches, and collects the last values of the
/// registers and of the touched words, the latter in consecutive ranges of the given sizes.
pub fn split_execution<D, R>(
    execution: Execution,
    records: TracerRecords<D, R>,
    sizes: &[usize],
) -> (r: SplitExecution<D, R>)
    requires
        fits(records, execution, sizes@),
    ensures
        is_split(r, execution, records, sizes@),
{
    let register_final_values = final_register_values(
        &execution.registers,
        &records.register_last_live_timestamps,
    );
    let lazy_init_teardown_data = split_touched_words(
        records.access_bitmask.as_slice(),
        execution.ram.as_slice(),
        records.ram_words_last_live_timestamps.as_slice(),
        sizes,
    );
    let mut main_circuit_traces = records.traced_chunks;
    main_circuit_traces.push(records.trace_chunk);
    let mut delegation_traces = records.all_per_type_logs;
    file_open(&mut delegation_traces, records.current_per_type_logs);
    SplitExecution {
        final_pc: execution.final_pc,
        main_circuit_traces,
        delegation_traces,
        register_final_values,
        lazy_init_teardown_data,
    }
}

/// The circuits of an execution are made from all of its records: the chunks in order, the one that
/// was open last; for each delegation type the filed batches in order and then the open one, unless
/// it is empty; the last value and time of every register; and the touched words range by range.
pub proof fn law_split_takes_every_record<D, R>(
    r: SplitExecution<D, R>,
    execution: Execution,
    records: TracerRecords<D, R>,
    sizes: Seq<usize>,
    kind: u16,
    i: int,
)
    requires
        is_split(r, execution, records, sizes),
        fits(records, execution, sizes),
    ensures
        r.final_pc == execution.final_pc,
        ({
            let n = records.traced_chunks@.len();
            &&& r.main_circuit_traces@.len() == n + 1 == execution.circuits_needed
            &&& 0 <= i < n ==> r.main_circuit_traces@[i] == records.traced_chunks@[i]
            &&& r.main_circuit_traces@[n as int] == records.trace_chunk
        }),
        ({
            let filed = records.all_per_type_logs@;
            let open_batches = records.current_per_type_logs@;
            let has_open = open_batches.contains_key(kind) && open_batches[kind]@.len() > 0;
            let all = r.delegation_traces@;
            &&& all.contains_key(kind) <==> filed.contains_key(kind) || has_open
            &&& filed.contains_key(kind) && !has_open ==> all[kind]@ == filed[kind]@
            &&& filed.contains_key(kind) && has_open ==> all[kind]@ == filed[kind]@.push(
                open_batches[kind],
            )
            &&& !filed.contains_key(kind) && has_open ==> all[kind]@ == seq![open_batches[kind]]
        }),
        r.register_final_values@.len() == 32,
        0 <= i < 32 ==> r.register_final_values@[i].value == execution.registers@[i]
            && r.register_final_values@[i].last_access_timestamp
            == records.register_last_live_timestamps@[i],
        r.lazy_init_teardown_data@.len() == sizes.len(),
        0 <= i < sizes.len() ==> r.lazy_init_teardown_data@[i]@ == records::touched_words(
            records.access_bitmask@,
            execution.ram@,
            records.ram_words_last_live_timestamps@,
            64 * records::total(sizes, i),
            64 * records::total(sizes, i + 1),
        ),
{
    let all = logs::batches(r.delegation_traces@, kind);
    let filed = logs::batches(records.all_per_type_logs@, kind);
    let rest = logs::open_of(records.current_per_type_logs@, kind);
    assert(all == filed + rest);
    assert(r.delegation_traces@.contains_key(kind) <==> records.all_per_type_logs@.contains_key(kind)
        || rest.len() > 0);
    if rest.len() == 0 {
        assert(filed + rest =~= filed);
    } else {
        assert(filed + rest =~= filed.push(rest[0]));
        if filed.len() == 0 {
            assert(filed + rest =~= rest);
        }
    }
}

} // verus!
