//! The commitments to the memory of a chunk: a tree over every coset of the extended domain, of
//! which the roots are kept.
use crate::tables::lookup;
use crate::tables::lookup::shift;
use crate::tables::rom;
use vstd::prelude::*;

verus! {

/// How the memory of a chunk is committed to: one tree for each coset of the extended domain.
#[derive(Clone, Copy, Debug, PartialEq, Eq)]
pub struct MemoryCommitment {
    pub trace_len: usize,
    pub num_cycles_in_chunk: usize,
    pub num_subtrees: usize,
    pub subtree_cap_size: usize,
}

/// The exponent of a power of two.
fn trailing_zeros(n: usize) -> (r: usize)
    requires
        rom::is_power_of_two(n as int),
    ensures
        n == lookup::power_of_two(r as int),
        r < 64,
{
    let ghost k = choose|k: nat| n as int == #[trigger] vstd::arithmetic::power2::pow2(k);
    let mut rest: usize = n;
    let mut r: usize = 0;
    proof {
        if k >= 64 {
            vstd::arithmetic::power2::lemma2_to64_rest();
            vstd::arithmetic::power2::lemma_pow2_unfold(64);
            if k > 64 {
                vstd::arithmetic::power2::lemma_pow2_strictly_increases(64, k);
            }
        }
        vstd::arithmetic::power2::lemma2_to64();
    }
    while rest > 1
        invariant
            n as int == vstd::arithmetic::power2::pow2(k),
            r <= k < 64,
            rest as int == vstd::arithmetic::power2::pow2((k - r) as nat),
        decreases rest,
    {
        proof {
            vstd::arithmetic::power2::lemma2_to64();
            if k > r {
                vstd::arithmetic::power2::lemma_pow2_unfold((k - r) as nat);
            }
        }
        rest = rest / 2;
        r = r + 1;
    }
    proof {
        if k > r {
            vstd::arithmetic::power2::lemma_pow2_strictly_increases(0, (k - r) as nat);
            vstd::arithmetic::power2::lemma2_to64();
        }
    }
    r
}

/// Whether `c` is the commitment to the memory of a chunk of `chunk_size` cycles, where the trees
/// of a domain of `2^k` rows have `2^caps[k]` roots in all.
pub open spec fn is_commitment(
    c: MemoryCommitment,
    chunk_size: int,
    caps: Seq<u32>,
    lde_factor: int,
) -> bool {
    &&& c.trace_len == chunk_size + 1
    &&& c.num_cycles_in_chunk == chunk_size
    &&& c.num_subtrees == lde_factor
    &&& exists|k: int|
        0 <= k < caps.len() && c.trace_len == #[trigger] lookup::power_of_two(k)
            && c.subtree_cap_size == lookup::power_of_two(caps[k] as int) / lde_factor
}

/// What the sizes of a chunk have to meet: its trace fills a domain of which the number of roots
/// is known, and every tree gets a root.
pub open spec fn can_commit(chunk_size: int, caps: Seq<u32>, lde_factor: int) -> bool {
    &&& chunk_size < usize::MAX
    &&& rom::is_power_of_two(chunk_size + 1)
    &&& lde_factor > 0
    &&& forall|k: int|
        #![trigger lookup::power_of_two(k)]
        0 <= k < 64 && chunk_size + 1 == lookup::power_of_two(k) ==> k < caps.len() && caps[k] < 32
            && lde_factor <= lookup::power_of_two(caps[k] as int)
}

/// The sizes of the commitment to the memory of a chunk.
fn commitment_sizes(
    chunk_size: usize,
    total_caps_size_log2: &[u32],
    lde_factor: usize,
) -> (r: MemoryCommitment)
    requires
        can_commit(chunk_size as int, total_caps_size_log2@, lde_factor as int),
    ensures
        is_commitment(r, chunk_size as int, total_caps_size_log2@, lde_factor as int),
        r.subtree_cap_size > 0,
{
    let trace_len: usize = chunk_size + 1;
    let log2: usize = trailing_zeros(trace_len);
    let caps_log2: u32 = total_caps_size_log2[log2];
    let caps: u64 = shift(caps_log2);
    proof {
        vstd::arithmetic::power2::lemma2_to64();
        vstd::arithmetic::power2::lemma_pow2_strictly_increases(caps_log2 as nat, 32);
        assert(caps as int / lde_factor as int >= 1) by (nonlinear_arith)
            requires
                0 < lde_factor <= caps,
        ;
    }
    let subtree_cap_size: usize = caps as usize / lde_factor;
    assert(trace_len == lookup::power_of_two(log2 as int));
    MemoryCommitment {
        trace_len,
        num_cycles_in_chunk: trace_len - 1,
        num_subtrees: lde_factor,
        subtree_cap_size,
    }
}

/// Whether `roots` are those of the trees over `cosets`, one tree for each coset and in their order.
pub open spec fn are_roots_of<L, K, F: Fn(&L, usize) -> K>(
    construct: F,
    cosets: Seq<L>,
    subtree_cap_size: usize,
    roots: Seq<K>,
) -> bool {
    &&& roots.len() == cosets.len()
    &&& forall|i: int|
        #![trigger roots[i]]
        0 <= i < cosets.len() ==> construct.ensures((&cosets[i], subtree_cap_size), roots[i])
}

/// Whether `construct` takes every one of `cosets` of a chunk: there is one for each tree.
pub open spec fn takes_cosets<L, K, F: Fn(&L, usize) -> K>(
    construct: F,
    cosets: Seq<L>,
    chunk_size: int,
    caps: Seq<u32>,
    lde_factor: int,
) -> bool {
    &&& cosets.len() == lde_factor
    &&& forall|c: MemoryCommitment, i: int|
        #![trigger is_commitment(c, chunk_size, caps, lde_factor), cosets[i]]
        is_commitment(c, chunk_size, caps, lde_factor) && 0 <= i < lde_factor
            ==> construct.requires((&cosets[i], c.subtree_cap_size))
}

/// Whether `roots` commit to `cosets` of a chunk of `chunk_size` cycles.
pub open spec fn commits_to<L, K, F: Fn(&L, usize) -> K>(
    construct: F,
    cosets: Seq<L>,
    chunk_size: int,
    caps: Seq<u32>,
    lde_factor: int,
    roots: Seq<K>,
) -> bool {
    &&& roots.len() == lde_factor
    &&& exists|c: MemoryCommitment| #[trigger]
        is_commitment(c, chunk_size, caps, lde_factor) && c.subtree_cap_size > 0 && are_roots_of(
            construct,
            cosets,
            c.subtree_cap_size,
            roots,
        )
}

/// The roots of the trees over the cosets of a chunk.
fn commit_memory_tree<L, K, F: Fn(&L, usize) -> K>(
    chunk_size: usize,
    cosets: &Vec<L>,
    total_caps_size_log2: &[u32],
    lde_factor: usize,
    construct: F,
) -> (r: Vec<K>)
    requires
        can_commit(chunk_size as int, total_caps_size_log2@, lde_factor as int),
        takes_cosets(
            construct,
            cosets@,
            chunk_size as int,
            total_caps_size_log2@,
            lde_factor as int,
        ),
    ensures
        commits_to(
            construct,
            cosets@,
            chunk_size as int,
            total_caps_size_log2@,
            lde_factor as int,
            r@,
        ),
{
    let sizes: MemoryCommitment = commitment_sizes(chunk_size, total_caps_size_log2, lde_factor);
    let subtree_cap_size: usize = sizes.subtree_cap_size;
    let mut roots: Vec<K> = Vec::new();
    let mut i: usize = 0;
    while i < cosets.len()
        invariant
            i <= cosets@.len(),
            roots@.len() == i,
            subtree_cap_size == sizes.subtree_cap_size,
            is_commitment(
                sizes,
                chunk_size as int,
                total_caps_size_log2@,
                lde_factor as int,
            ),
            takes_cosets(
                construct,
                cosets@,
                chunk_size as int,
                total_caps_size_log2@,
                lde_factor as int,
            ),
            forall|j: int|
                #![trigger roots@[j]]
                0 <= j < i ==> construct.ensures((&cosets@[j], subtree_cap_size), roots@[j]),
        decreases cosets@.len() - i,
    {
        let coset: &L = &cosets[i];
        assert(*coset == cosets@[i as int]);
        roots.push(construct(coset, subtree_cap_size));
        i = i + 1;
    }
    roots
}

/// Whether `roots` are a commitment to the memory of a chunk of the main circuit, and `aux_data` is
/// what `evaluate` found on the way.
pub open spec fn is_main_commitment<
    L,
    A,
    K,
    E: FnOnce(usize, usize) -> (Vec<L>, A),
    F: Fn(&L, usize) -> K,
>(
    num_cycles: usize,
    caps: Seq<u32>,
    lde_factor: usize,
    evaluate: E,
    construct: F,
    roots: Seq<K>,
    aux_data: A,
) -> bool {
    exists|cosets: Vec<L>| #[trigger]
        evaluate.ensures((num_cycles, lde_factor), (cosets, aux_data)) && commits_to(
            construct,
            cosets@,
            num_cycles as int,
            caps,
            lde_factor as int,
            roots,
        )
}

/// The commitment to the memory of a chunk of the main circuit, and what was found on the way.
/// `evaluate` is handed the number of cycles and that of the cosets, and gives back the memory of
/// the chunk on every coset. The place of the circuit in the sequence of circuits plays no part.
pub fn commit_memory_tree_for_riscv_circuit_using_gpu_tracer<
    L,
    A,
    K,
    E: FnOnce(usize, usize) -> (Vec<L>, A),
    F: Fn(&L, usize) -> K,
>(
    num_cycles_chunk_size: usize,
    _circuit_sequence: usize,
    total_caps_size_log2: &[u32],
    lde_factor: usize,
    evaluate: E,
    construct: F,
) -> (r: (Vec<K>, A))
    requires
        can_commit(num_cycles_chunk_size as int, total_caps_size_log2@, lde_factor as int),
        evaluate.requires((num_cycles_chunk_size, lde_factor)),
        forall|cosets: Vec<L>, aux_data: A| #[trigger]
            evaluate.ensures((num_cycles_chunk_size, lde_factor), (cosets, aux_data))
                ==> takes_cosets(
                construct,
                cosets@,
                num_cycles_chunk_size as int,
                total_caps_size_log2@,
                lde_factor as int,
            ),
    ensures
        is_main_commitment(
            num_cycles_chunk_size,
            total_caps_size_log2@,
            lde_factor,
            evaluate,
            construct,
            r.0@,
            r.1,
        ),
{
    let (cosets, aux_data): (Vec<L>, A) = evaluate(num_cycles_chunk_size, lde_factor);
    assert(evaluate.ensures((num_cycles_chunk_size, lde_factor), (cosets, aux_data)));
    let roots: Vec<K> = commit_memory_tree(
        num_cycles_chunk_size,
        &cosets,
        total_caps_size_log2,
        lde_factor,
        construct,
    );
    let r: (Vec<K>, A) = (roots, aux_data);
    assert(evaluate.ensures((num_cycles_chunk_size, lde_factor), (cosets, r.1)));
    r
}

/// The commitment to the memory of a batch of delegation requests, and their type.
pub fn commit_memory_tree_for_delegation_circuit_with_gpu_tracer<
    L,
    K,
    E: FnOnce(usize, usize) -> Vec<L>,
    F: Fn(&L, usize) -> K,
>(
    num_requests: usize,
    delegation_type: u16,
    total_caps_size_log2: &[u32],
    lde_factor: usize,
    evaluate: E,
    construct: F,
) -> (r: (Vec<K>, u32))
    requires
        can_commit(num_requests as int, total_caps_size_log2@, lde_factor as int),
        evaluate.requires((num_requests, lde_factor)),
        forall|cosets: Vec<L>| #[trigger]
            evaluate.ensures((num_requests, lde_factor), cosets) ==> takes_cosets(
                construct,
                cosets@,
                num_requests as int,
                total_caps_size_log2@,
                lde_factor as int,
            ),
    ensures
        exists|cosets: Vec<L>| #[trigger]
            evaluate.ensures((num_requests, lde_factor), cosets) && commits_to(
                construct,
                cosets@,
                num_requests as int,
                total_caps_size_log2@,
                lde_factor as int,
                r.0@,
            ),
        r.1 == delegation_type,
{
    let cosets: Vec<L> = evaluate(num_requests, lde_factor);
    let roots: Vec<K> = commit_memory_tree(
        num_requests,
        &cosets,
        total_caps_size_log2,
        lde_factor,
        construct,
    );
    (roots, delegation_type as u32)
}

/// The cosets of a chunk fix its commitment, where the outcome of `construct` is fixed: two
/// commitments to the same cosets are the same.
pub proof fn law_commitment_is_fixed_by_the_cosets<L, K, F: Fn(&L, usize) -> K>(
    construct: F,
    cosets: Seq<L>,
    chunk_size: int,
    caps: Seq<u32>,
    lde_factor: int,
    first: Seq<K>,
    second: Seq<K>,
)
    requires
        can_commit(chunk_size, caps, lde_factor),
        commits_to(construct, cosets, chunk_size, caps, lde_factor, first),
        commits_to(construct, cosets, chunk_size, caps, lde_factor, second),
        forall|coset: L, n: usize, a: K, b: K|
            #![trigger construct.ensures((&coset, n), a), construct.ensures((&coset, n), b)]
            construct.ensures((&coset, n), a) && construct.ensures((&coset, n), b) ==> a == b,
    ensures
        first == second,
{
    let c = choose|c: MemoryCommitment| #[trigger]
        is_commitment(c, chunk_size, caps, lde_factor) && c.subtree_cap_size > 0 && are_roots_of(
            construct,
            cosets,
            c.subtree_cap_size,
            first,
        );
    let d = choose|d: MemoryCommitment| #[trigger]
        is_commitment(d, chunk_size, caps, lde_factor) && d.subtree_cap_size > 0 && are_roots_of(
            construct,
            cosets,
            d.subtree_cap_size,
            second,
        );
    let k = choose|k: int|
        0 <= k < caps.len() && c.trace_len == #[trigger] lookup::power_of_two(k)
            && c.subtree_cap_size == lookup::power_of_two(caps[k] as int) / lde_factor;
    let l = choose|l: int|
        0 <= l < caps.len() && d.trace_len == #[trigger] lookup::power_of_two(l)
            && d.subtree_cap_size == lookup::power_of_two(caps[l] as int) / lde_factor;
    if k < l {
        vstd::arithmetic::power2::lemma_pow2_strictly_increases(k as nat, l as nat);
    } else if l < k {
        vstd::arithmetic::power2::lemma_pow2_strictly_increases(l as nat, k as nat);
    }
    assert(c.subtree_cap_size == d.subtree_cap_size);
    assert forall|i: int| 0 <= i < first.len() implies first[i] == second[i] by {
        let coset = cosets[i];
        assert(construct.ensures((&coset, c.subtree_cap_size), first[i]));
        assert(construct.ensures((&coset, c.subtree_cap_size), second[i]));
    }
    assert(first =~= second);
}

/// Two commitments to the same chunk of the main circuit are the same, wherever in the sequence of
/// circuits it stands, where the outcomes of `evaluate` and of `construct` are fixed.
pub proof fn law_circuit_sequence_plays_no_part<
    L,
    A,
    K,
    E: FnOnce(usize, usize) -> (Vec<L>, A),
    F: Fn(&L, usize) -> K,
>(
    num_cycles: usize,
    caps: Seq<u32>,
    lde_factor: usize,
    evaluate: E,
    construct: F,
    first: (Seq<K>, A),
    second: (Seq<K>, A),
)
    requires
        can_commit(num_cycles as int, caps, lde_factor as int),
        is_main_commitment(num_cycles, caps, lde_factor, evaluate, construct, first.0, first.1),
        is_main_commitment(num_cycles, caps, lde_factor, evaluate, construct, second.0, second.1),
        forall|a: (Vec<L>, A), b: (Vec<L>, A)|
            #[trigger]
            evaluate.ensures((num_cycles, lde_factor), a) && #[trigger] evaluate.ensures(
                (num_cycles, lde_factor),
                b,
            ) ==> a.0@ == b.0@ && a.1 == b.1,
        forall|coset: L, n: usize, a: K, b: K|
            #![trigger construct.ensures((&coset, n), a), construct.ensures((&coset, n), b)]
            construct.ensures((&coset, n), a) && construct.ensures((&coset, n), b) ==> a == b,
    ensures
        first == second,
        first.0.len() == lde_factor,
{
    let c = choose|cosets: Vec<L>| #[trigger]
        evaluate.ensures((num_cycles, lde_factor), (cosets, first.1)) && commits_to(
            construct,
            cosets@,
            num_cycles as int,
            caps,
            lde_factor as int,
            first.0,
        );
    let d = choose|cosets: Vec<L>| #[trigger]
        evaluate.ensures((num_cycles, lde_factor), (cosets, second.1)) && commits_to(
            construct,
            cosets@,
            num_cycles as int,
            caps,
            lde_factor as int,
            second.0,
        );
    let a = (c, first.1);
    let b = (d, second.1);
    assert(evaluate.ensures((num_cycles, lde_factor), a));
    assert(evaluate.ensures((num_cycles, lde_factor), b));
    law_commitment_is_fixed_by_the_cosets(
        construct,
        c@,
        num_cycles as int,
        caps,
        lde_factor as int,
        first.0,
        second.0,
    );
}

/// When the number of trees is a power of two they share the roots evenly.
pub proof fn law_roots_are_shared_evenly(caps_log2: nat, lde_log2: nat)
    requires
        lde_log2 <= caps_log2,
    ensures
        lookup::power_of_two(caps_log2 as int) / lookup::power_of_two(lde_log2 as int)
            * lookup::power_of_two(lde_log2 as int) == lookup::power_of_two(caps_log2 as int),
{
    let rest = (caps_log2 - lde_log2) as nat;
    vstd::arithmetic::power2::lemma_pow2_adds(rest, lde_log2);
    vstd::arithmetic::power2::lemma_pow2_pos(lde_log2);
    vstd::arithmetic::div_mod::lemma_div_multiples_vanish(
        vstd::arithmetic::power2::pow2(rest) as int,
        vstd::arithmetic::power2::pow2(lde_log2) as int,
    );
    assert(vstd::arithmetic::power2::pow2(rest) * vstd::arithmetic::power2::pow2(lde_log2)
        == vstd::arithmetic::power2::pow2(lde_log2) * vstd::arithmetic::power2::pow2(rest))
        by (nonlinear_arith);
}

/// A commitment to the memory of a chunk has one cap for each coset, in their order, each made with
/// the same number of roots: that of the whole domain, by its exponent, divided by the number of
/// cosets.
pub proof fn law_caps_of_a_chunk<L, K, F: Fn(&L, usize) -> K>(
    construct: F,
    cosets: Seq<L>,
    chunk_size: int,
    caps: Seq<u32>,
    lde_factor: int,
    roots: Seq<K>,
    log2: nat,
    i: int,
)
    requires
        can_commit(chunk_size, caps, lde_factor),
        commits_to(construct, cosets, chunk_size, caps, lde_factor, roots),
        chunk_size + 1 == vstd::arithmetic::power2::pow2(log2),
        0 <= i < lde_factor,
    ensures
        log2 < caps.len(),
        roots.len() == lde_factor,
        cosets.len() == lde_factor,
        ({
            let size = (vstd::arithmetic::power2::pow2(caps[log2 as int] as nat) as int
                / lde_factor) as usize;
            &&& size > 0
            &&& construct.ensures((&cosets[i], size), roots[i])
        }),
{
    let c = choose|c: MemoryCommitment| #[trigger]
        is_commitment(c, chunk_size, caps, lde_factor) && c.subtree_cap_size > 0 && are_roots_of(
            construct,
            cosets,
            c.subtree_cap_size,
            roots,
        );
    let k = choose|k: int|
        0 <= k < caps.len() && c.trace_len == #[trigger] lookup::power_of_two(k)
            && c.subtree_cap_size == lookup::power_of_two(caps[k] as int) / lde_factor;
    if k < log2 {
        vstd::arithmetic::power2::lemma_pow2_strictly_increases(k as nat, log2);
    } else if log2 < k {
        vstd::arithmetic::power2::lemma_pow2_strictly_increases(log2, k as nat);
    }
    assert(construct.ensures((&cosets[i], c.subtree_cap_size), roots[i]));
}

/// The commitment of a main circuit is to cosets that `evaluate` gives for its number of cycles and
/// the number of cosets, and one root is made from each of them, in order.
pub proof fn law_roots_of_a_main_circuit<
    L,
    A,
    K,
    E: FnOnce(usize, usize) -> (Vec<L>, A),
    F: Fn(&L, usize) -> K,
>(
    num_cycles: usize,
    caps: Seq<u32>,
    lde_factor: usize,
    evaluate: E,
    construct: F,
    roots: Seq<K>,
    aux_data: A,
    log2: nat,
)
    requires
        can_commit(num_cycles as int, caps, lde_factor as int),
        is_main_commitment(num_cycles, caps, lde_factor, evaluate, construct, roots, aux_data),
        num_cycles + 1 == vstd::arithmetic::power2::pow2(log2),
    ensures
        ({
            let size = (vstd::arithmetic::power2::pow2(caps[log2 as int] as nat) as int
                / lde_factor as int) as usize;
            exists|cosets: Vec<L>|
                {
                    &&& #[trigger] evaluate.ensures((num_cycles, lde_factor), (cosets, aux_data))
                    &&& roots.len() == lde_factor
                    &&& cosets@.len() == lde_factor
                    &&& forall|i: int|
                        #![trigger roots[i]]
                        0 <= i < lde_factor ==> construct.ensures((&cosets@[i], size), roots[i])
                }
        }),
{
    let cosets = choose|cosets: Vec<L>| #[trigger]
        evaluate.ensures((num_cycles, lde_factor), (cosets, aux_data)) && commits_to(
            construct,
            cosets@,
            num_cycles as int,
            caps,
            lde_factor as int,
            roots,
        );
    law_caps_of_a_chunk(
        construct,
        cosets@,
        num_cycles as int,
        caps,
        lde_factor as int,
        roots,
        log2,
        0,
    );
    assert forall|i: int|
        #![trigger roots[i]]
        0 <= i < lde_factor implies construct.ensures(
        (
            &cosets@[i],
            (vstd::arithmetic::power2::pow2(caps[log2 as int] as nat) as int / lde_factor as int)
                as usize,
        ),
        roots[i],
    ) by {
        law_caps_of_a_chunk(
            construct,
            cosets@,
            num_cycles as int,
            caps,
            lde_factor as int,
            roots,
            log2,
            i,
        );
    }
}

/// The sizes of a commitment: one row more than cycles, one subtree for each coset, and of the roots
/// that the length of the trace has by its exponent, an equal share for each subtree.
pub proof fn law_sizes_of_a_commitment(
    c: MemoryCommitment,
    chunk_size: int,
    caps: Seq<u32>,
    lde_factor: int,
    log2: nat,
)
    requires
        is_commitment(c, chunk_size, caps, lde_factor),
        chunk_size + 1 == vstd::arithmetic::power2::pow2(log2),
    ensures
        c.num_cycles_in_chunk == chunk_size,
        c.trace_len == c.num_cycles_in_chunk + 1,
        c.num_subtrees == lde_factor,
        c.subtree_cap_size == vstd::arithmetic::power2::pow2(caps[log2 as int] as nat) as int
            / lde_factor,
{
    let k = choose|k: int|
        0 <= k < caps.len() && c.trace_len == #[trigger] lookup::power_of_two(k)
            && c.subtree_cap_size == lookup::power_of_two(caps[k] as int) / lde_factor;
    if k < log2 {
        vstd::arithmetic::power2::lemma_pow2_strictly_increases(k as nat, log2);
    } else if log2 < k {
        vstd::arithmetic::power2::lemma_pow2_strictly_increases(log2, k as nat);
    }
}

} // verus!
