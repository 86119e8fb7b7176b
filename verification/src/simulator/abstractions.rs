//! The parties that a cycle talks to: memory, tracer, oracle and delegation circuits.
use crate::simulator::config::MachineConfig;
use crate::simulator::state::RiscV32StateForUnrolledProver;
use vstd::prelude::*;

verus! {

/// The program counter and the register file.
#[verifier::ext_equal]
pub struct Cpu {
    pub regs: Seq<u32>,
    pub pc: u32,
}

impl Cpu {
    /// The machine with `value` written to register `index`; register zero stays zero.
    pub open spec fn with_register(self, index: int, value: u32) -> Cpu {
        Cpu {
            regs: self.regs.update(
                index,
                if index == 0 {
                    0
                } else {
                    value
                },
            ),
            pc: self.pc,
        }
    }

    pub open spec fn with_pc(self, pc: u32) -> Cpu {
        Cpu { regs: self.regs, pc }
    }
}

/// A word-addressed memory. Words are named by the address of their first byte.
pub trait MemorySource: Sized {
    /// The readable words.
    spec fn words(&self) -> Map<u64, u32>;

    /// The addresses of the words that may be overwritten.
    spec fn writable(&self) -> Set<u64>;

    fn can_read(&self, phys_address: u64) -> (r: bool)
        ensures
            r == self.words().contains_key(phys_address),
    ;

    fn can_write(&self, phys_address: u64) -> (r: bool)
        ensures
            r == (self.words().contains_key(phys_address) && self.writable().contains(
                phys_address,
            )),
    ;

    fn get(&self, phys_address: u64) -> (r: u32)
        requires
            self.words().contains_key(phys_address),
        ensures
            r == self.words()[phys_address],
    ;

    fn set(&mut self, phys_address: u64, value: u32)
        requires
            old(self).words().contains_key(phys_address),
            old(self).writable().contains(phys_address),
        ensures
            final(self).words() == old(self).words().insert(phys_address, value),
            final(self).writable() == old(self).writable(),
    ;
}

/// What a tracer is told during a cycle.
#[verifier::ext_equal]
pub enum TraceEvent {
    CycleStart { cpu: Cpu },
    CycleEnd { cpu: Cpu },
    Rs1Read { index: u32, value: u32 },
    Rs2Read { index: u32, value: u32 },
    RdWrite { index: u32, old_value: u32, value: u32 },
    NonDeterminismRead { value: u32 },
    NonDeterminismWrite { value: u32 },
    RamRead { address: u64, value: u32 },
    RamReadWrite { address: u64, old_value: u32, value: u32 },
}

/// A party that is told everything a cycle touches.
pub trait Tracer<C: MachineConfig>: Sized {
    /// What the tracer remembers.
    type Model;

    spec fn model(&self) -> Self::Model;

    /// How being told `event` changes what is remembered.
    spec fn observe(model: Self::Model, event: TraceEvent) -> Self::Model;

    fn at_cycle_start_ext(&mut self, state: &RiscV32StateForUnrolledProver<C>)
        ensures
            final(self).model() == Self::observe(
                old(self).model(),
                TraceEvent::CycleStart { cpu: state@ },
            ),
    ;

    fn at_cycle_end_ext(&mut self, state: &RiscV32StateForUnrolledProver<C>)
        ensures
            final(self).model() == Self::observe(
                old(self).model(),
                TraceEvent::CycleEnd { cpu: state@ },
            ),
    ;

    fn trace_rs1_read(&mut self, reg_idx: u32, read_value: u32)
        ensures
            final(self).model() == Self::observe(
                old(self).model(),
                TraceEvent::Rs1Read { index: reg_idx, value: read_value },
            ),
    ;

    fn trace_rs2_read(&mut self, reg_idx: u32, read_value: u32)
        ensures
            final(self).model() == Self::observe(
                old(self).model(),
                TraceEvent::Rs2Read { index: reg_idx, value: read_value },
            ),
    ;

    fn trace_rd_write(&mut self, reg_idx: u32, read_value: u32, written_value: u32)
        ensures
            final(self).model() == Self::observe(
                old(self).model(),
                TraceEvent::RdWrite { index: reg_idx, old_value: read_value, value: written_value },
            ),
    ;

    fn trace_non_determinism_read(&mut self, read_value: u32)
        ensures
            final(self).model() == Self::observe(
                old(self).model(),
                TraceEvent::NonDeterminismRead { value: read_value },
            ),
    ;

    fn trace_non_determinism_write(&mut self, written_value: u32)
        ensures
            final(self).model() == Self::observe(
                old(self).model(),
                TraceEvent::NonDeterminismWrite { value: written_value },
            ),
    ;

    fn trace_ram_read(&mut self, phys_address: u64, read_value: u32)
        ensures
            final(self).model() == Self::observe(
                old(self).model(),
                TraceEvent::RamRead { address: phys_address, value: read_value },
            ),
    ;

    fn trace_ram_read_write(&mut self, phys_address: u64, read_value: u32, written_value: u32)
        ensures
            final(self).model() == Self::observe(
                old(self).model(),
                TraceEvent::RamReadWrite {
                    address: phys_address,
                    old_value: read_value,
                    value: written_value,
                },
            ),
    ;
}

/// What a tracer remembers after a sequence of events.
pub open spec fn observe_all<C: MachineConfig, TR: Tracer<C>>(
    model: TR::Model,
    events: Seq<TraceEvent>,
) -> TR::Model
    decreases events.len(),
{
    if events.len() == 0 {
        model
    } else {
        TR::observe(observe_all::<C, TR>(model, events.drop_last()), events.last())
    }
}

/// Observing one more event.
pub proof fn lemma_observe_push<C: MachineConfig, TR: Tracer<C>>(
    model: TR::Model,
    events: Seq<TraceEvent>,
    event: TraceEvent,
)
    ensures
        observe_all::<C, TR>(model, events.push(event)) == TR::observe(
            observe_all::<C, TR>(model, events),
            event,
        ),
{
    assert(events.push(event).drop_last() =~= events);
}

/// Observing two runs of events one after the other.
pub proof fn lemma_observe_concat<C: MachineConfig, TR: Tracer<C>>(
    model: TR::Model,
    first: Seq<TraceEvent>,
    second: Seq<TraceEvent>,
)
    ensures
        observe_all::<C, TR>(model, first + second) == observe_all::<C, TR>(
            observe_all::<C, TR>(model, first),
            second,
        ),
    decreases second.len(),
{
    if second.len() == 0 {
        assert(first + second =~= first);
    } else {
        lemma_observe_concat::<C, TR>(model, first, second.drop_last());
        assert((first + second).drop_last() =~= first + second.drop_last());
        assert((first + second).last() == second.last());
    }
}

/// The tracer that remembers nothing.
impl<C: MachineConfig> Tracer<C> for () {
    type Model = ();

    open spec fn model(&self) -> () {
        ()
    }

    open spec fn observe(model: (), event: TraceEvent) -> () {
        ()
    }

    fn at_cycle_start_ext(&mut self, state: &RiscV32StateForUnrolledProver<C>) {
    }

    fn at_cycle_end_ext(&mut self, state: &RiscV32StateForUnrolledProver<C>) {
    }

    fn trace_rs1_read(&mut self, reg_idx: u32, read_value: u32) {
    }

    fn trace_rs2_read(&mut self, reg_idx: u32, read_value: u32) {
    }

    fn trace_rd_write(&mut self, reg_idx: u32, read_value: u32, written_value: u32) {
    }

    fn trace_non_determinism_read(&mut self, read_value: u32) {
    }

    fn trace_non_determinism_write(&mut self, written_value: u32) {
    }

    fn trace_ram_read(&mut self, phys_address: u64, read_value: u32) {
    }

    fn trace_ram_read_write(&mut self, phys_address: u64, read_value: u32, written_value: u32) {
    }
}

/// The oracle behind the non-determinism CSR.
pub trait NonDeterminismCSRSource<M: MemorySource>: Sized {
    /// Whether a CSR access that discards the word read is a pure write.
    const SHOULD_MOCK_READS_BEFORE_WRITES: bool;

    /// Whether a CSR access whose source register is zero is a pure read.
    const SHOULD_IGNORE_WRITES_AFTER_READS: bool;

    type Model;

    spec fn model(&self) -> Self::Model;

    /// The word that the next read gives, if there is one.
    spec fn next_word(model: Self::Model) -> Option<u32>;

    spec fn after_read(model: Self::Model) -> Self::Model;

    spec fn after_write(model: Self::Model, words: Map<u64, u32>, value: u32) -> Self::Model;

    fn has_word(&self) -> (r: bool)
        ensures
            r == (Self::next_word(self.model()) is Some),
    ;

    fn read(&mut self) -> (r: u32)
        requires
            Self::next_word(old(self).model()) is Some,
        ensures
            Self::next_word(old(self).model()) == Some(r),
            final(self).model() == Self::after_read(old(self).model()),
    ;

    fn write_with_memory_access(&mut self, memory_source: &M, value: u32)
        ensures
            final(self).model() == Self::after_write(
                old(self).model(),
                memory_source.words(),
                value,
            ),
    ;
}

/// An oracle that hands out a fixed list of words and ignores what it is told.
pub struct QuasiWordSource {
    words: Vec<u32>,
    position: usize,
}

impl View for QuasiWordSource {
    type V = Seq<u32>;

    /// The words still to be given.
    closed spec fn view(&self) -> Seq<u32> {
        self.words@.skip(self.position as int)
    }
}

impl QuasiWordSource {
    #[verifier::type_invariant]
    closed spec fn in_bounds(self) -> bool {
        self.position <= self.words@.len()
    }

    pub fn new(words: Vec<u32>) -> (r: Self)
        ensures
            r@ == words@,
    {
        let source = QuasiWordSource { words, position: 0 };
        assert(source@ =~= words@);
        source
    }
}

impl<M: MemorySource> NonDeterminismCSRSource<M> for QuasiWordSource {
    const SHOULD_MOCK_READS_BEFORE_WRITES: bool = true;

    const SHOULD_IGNORE_WRITES_AFTER_READS: bool = true;

    type Model = Seq<u32>;

    open spec fn model(&self) -> Seq<u32> {
        self@
    }

    open spec fn next_word(model: Seq<u32>) -> Option<u32> {
        if model.len() > 0 {
            Some(model[0])
        } else {
            None
        }
    }

    open spec fn after_read(model: Seq<u32>) -> Seq<u32> {
        model.skip(1)
    }

    open spec fn after_write(model: Seq<u32>, words: Map<u64, u32>, value: u32) -> Seq<u32> {
        model
    }

    fn has_word(&self) -> (r: bool) {
        proof {
            use_type_invariant(self);
        }
        self.position < self.words.len()
    }

    fn read(&mut self) -> (r: u32) {
        proof {
            use_type_invariant(&*self);
        }
        let position: usize = self.position;
        let word = self.words[position];
        let length: usize = self.words.len();
        assert(position < length);
        self.position = position + 1;
        assert(self@ =~= old(self)@.skip(1));
        word
    }

    fn write_with_memory_access(&mut self, memory_source: &M, value: u32) {
    }
}

/// What an oracle gives in its first `k` reads, as far as it has words; and what is left of it.
pub open spec fn oracle_reads<M: MemorySource, ND: NonDeterminismCSRSource<M>>(
    model: ND::Model,
    k: nat,
) -> (Seq<u32>, ND::Model)
    decreases k,
{
    if k == 0 {
        (seq![], model)
    } else {
        let (given, left) = oracle_reads::<M, ND>(model, (k - 1) as nat);
        match ND::next_word(left) {
            None => (given, left),
            Some(word) => (given.push(word), ND::after_read(left)),
        }
    }
}

/// The reads of an oracle that was made from a list of words give its words in order, each once:
/// `k` reads give the first `k` words, and after as many reads as there are words none is left. What
/// it is told changes nothing.
pub proof fn law_oracle_gives_its_words_in_order<M: MemorySource>(
    words: Seq<u32>,
    k: nat,
    memory: Map<u64, u32>,
    value: u32,
)
    requires
        k <= words.len(),
    ensures
        ({
            let (given, left) = oracle_reads::<M, QuasiWordSource>(words, k);
            &&& given == words.take(k as int)
            &&& k < words.len() ==> <QuasiWordSource as NonDeterminismCSRSource<M>>::next_word(left)
                == Some(words[k as int])
            &&& k == words.len() ==> <QuasiWordSource as NonDeterminismCSRSource<M>>::next_word(left)
                is None
            &&& <QuasiWordSource as NonDeterminismCSRSource<M>>::after_write(left, memory, value)
                == left
        }),
    decreases k,
{
    lemma_oracle_reads::<M>(words, k);
}

proof fn lemma_oracle_reads<M: MemorySource>(words: Seq<u32>, k: nat)
    requires
        k <= words.len(),
    ensures
        oracle_reads::<M, QuasiWordSource>(words, k) == (
            words.take(k as int),
            words.skip(k as int),
        ),
    decreases k,
{
    if k == 0 {
        assert(words.take(0) =~= seq![]);
        assert(words.skip(0) =~= words);
    } else {
        lemma_oracle_reads::<M>(words, (k - 1) as nat);
        assert(words.take(k as int) =~= words.take(k - 1).push(words[k - 1]));
        assert(words.skip(k as int) =~= words.skip(k - 1).skip(1));
    }
}

/// What a delegation does to the machine.
#[verifier::ext_equal]
pub struct DelegationEffect<P> {
    pub cpu: Cpu,
    pub words: Map<u64, u32>,
    pub events: Seq<TraceEvent>,
    pub processor: P,
}

/// The party that carries out delegation requests.
pub trait DelegationCSRProcessor: Sized {
    type Model;

    spec fn model(&self) -> Self::Model;

    /// What a request through `csr` does; `None` where it is refused.
    spec fn effect(
        model: Self::Model,
        csr: u16,
        cpu: Cpu,
        words: Map<u64, u32>,
        writable: Set<u64>,
    ) -> Option<DelegationEffect<Self::Model>>;

    /// A delegation leaves register zero alone, and writes only where the program may write.
    proof fn lemma_effect_is_confined(
        model: Self::Model,
        csr: u16,
        cpu: Cpu,
        words: Map<u64, u32>,
        writable: Set<u64>,
    )
        requires
            cpu.regs.len() == 32,
            cpu.regs[0] == 0,
            Self::effect(model, csr, cpu, words, writable) is Some,
        ensures
            ({
                let e = Self::effect(model, csr, cpu, words, writable)->0;
                &&& e.cpu.regs.len() == 32
                &&& e.cpu.regs[0] == 0
                &&& e.words.dom() == words.dom()
                &&& forall|a: u64|
                    words.contains_key(a) && !writable.contains(a) ==> e.words[a] == #[trigger] words[a]
            }),
    ;

    fn accepts<M: MemorySource, C: MachineConfig>(
        &self,
        state: &RiscV32StateForUnrolledProver<C>,
        csr_index: u16,
        memory_source: &M,
    ) -> (r: bool)
        ensures
            r == (Self::effect(
                self.model(),
                csr_index,
                state@,
                memory_source.words(),
                memory_source.writable(),
            ) is Some),
    ;

    fn process_write<
        M: MemorySource,
        TR: Tracer<C>,
        ND: NonDeterminismCSRSource<M>,
        C: MachineConfig,
    >(
        &mut self,
        state: &mut RiscV32StateForUnrolledProver<C>,
        csr_index: u16,
        memory_source: &mut M,
        non_determinism_source: &mut ND,
        tracer: &mut TR,
    )
        requires
            Self::effect(
                old(self).model(),
                csr_index,
                old(state)@,
                old(memory_source).words(),
                old(memory_source).writable(),
            ) is Some,
        ensures
            ({
                let e = Self::effect(
                    old(self).model(),
                    csr_index,
                    old(state)@,
                    old(memory_source).words(),
                    old(memory_source).writable(),
                )->0;
                &&& final(self).model() == e.processor
                &&& final(state)@ == e.cpu
                &&& final(memory_source).words() == e.words
                &&& final(memory_source).writable() == old(memory_source).writable()
                &&& final(non_determinism_source).model() == old(non_determinism_source).model()
                &&& final(tracer).model() == observe_all::<C, TR>(old(tracer).model(), e.events)
            }),
    ;
}

} // verus!
