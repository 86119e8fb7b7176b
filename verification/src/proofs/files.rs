//! The files that hold the proofs of a program, one for each proof.
use crate::proofs::circuit_proof;
use crate::proofs::circuit_proof::{Proof, ProofModel};
use crate::proofs::program;
use crate::proofs::program::{count_by_type, ProgramProof, ProofList, ProofMetadata};
use crate::text;
use crate::text::append_decimal;
use vstd::prelude::*;
use vstd::string::*;

verus! {

/// Which proof a file holds.
#[derive(Clone, Copy, Debug, PartialEq, Eq)]
pub enum ProofFile {
    Basic(usize),
    Reduced(usize),
    ReducedLog23(usize),
    Delegation(u32, usize),
}

impl ProofFile {
    /// The name of the file up to the number of the proof.
    pub open spec fn prefix(self) -> Seq<char> {
        match self {
            ProofFile::Basic(_) => "proof_"@,
            ProofFile::Reduced(_) => "reduced_proof_"@,
            ProofFile::ReducedLog23(_) => "reduced_log_23_proof_"@,
            ProofFile::Delegation(t, _) => "delegation_proof_"@ + text::decimal(t as nat).push('_'),
        }
    }

    /// The number of the proof.
    pub open spec fn number(self) -> nat {
        match self {
            ProofFile::Basic(i) => i as nat,
            ProofFile::Reduced(i) => i as nat,
            ProofFile::ReducedLog23(i) => i as nat,
            ProofFile::Delegation(_, i) => i as nat,
        }
    }

    /// The name of the file.
    pub open spec fn name(self) -> Seq<char> {
        self.prefix() + text::decimal(self.number()) + ".json"@
    }

    /// The name of the file.
    pub fn file_name(&self) -> (r: String)
        ensures
            r@ == self.name(),
    {
        let mut s = String::new();
        let number: usize = match self {
            ProofFile::Basic(i) => {
                s.append("proof_");
                assert(s@ =~= self.prefix());
                *i
            },
            ProofFile::Reduced(i) => {
                s.append("reduced_proof_");
                assert(s@ =~= self.prefix());
                *i
            },
            ProofFile::ReducedLog23(i) => {
                s.append("reduced_log_23_proof_");
                assert(s@ =~= self.prefix());
                *i
            },
            ProofFile::Delegation(t, i) => {
                s.append("delegation_proof_");
                append_decimal(&mut s, *t as u64);
                s.push('_');
                assert(s@ =~= self.prefix());
                *i
            },
        };
        append_decimal(&mut s, number as u64);
        s.append(".json");
        s
    }
}

/// The files of some delegation proofs in the order of their types' entries.
pub open spec fn delegation_plan(counts: Seq<(u32, usize)>) -> Seq<ProofFile>
    decreases counts.len(),
{
    if counts.len() == 0 {
        seq![]
    } else {
        delegation_plan(counts.drop_last()) + Seq::new(
            counts.last().1 as nat,
            |i: int| ProofFile::Delegation(counts.last().0, i as usize),
        )
    }
}

/// The files of the proofs of a program, in the order in which they are written and read.
pub open spec fn plan(
    basic: usize,
    reduced: usize,
    reduced_log_23: usize,
    counts: Seq<(u32, usize)>,
) -> Seq<ProofFile> {
    Seq::new(basic as nat, |i: int| ProofFile::Basic(i as usize)) + Seq::new(
        reduced as nat,
        |i: int| ProofFile::Reduced(i as usize),
    ) + Seq::new(reduced_log_23 as nat, |i: int| ProofFile::ReducedLog23(i as usize))
        + delegation_plan(counts)
}

/// Lists the files of a program.
fn list_files(
    basic: usize,
    reduced: usize,
    reduced_log_23: usize,
    counts: &Vec<(u32, usize)>,
) -> (r: Vec<ProofFile>)
    ensures
        r@ == plan(basic, reduced, reduced_log_23, counts@),
{
    let mut r: Vec<ProofFile> = Vec::new();
    let mut i: usize = 0;
    while i < basic
        invariant
            i <= basic,
            r@ == Seq::new(i as nat, |i: int| ProofFile::Basic(i as usize)),
        decreases basic - i,
    {
        r.push(ProofFile::Basic(i));
        i = i + 1;
        assert(r@ =~= Seq::new(i as nat, |i: int| ProofFile::Basic(i as usize)));
    }
    let ghost first = r@;
    i = 0;
    while i < reduced
        invariant
            i <= reduced,
            r@ == first + Seq::new(i as nat, |i: int| ProofFile::Reduced(i as usize)),
        decreases reduced - i,
    {
        r.push(ProofFile::Reduced(i));
        i = i + 1;
        assert(r@ =~= first + Seq::new(i as nat, |i: int| ProofFile::Reduced(i as usize)));
    }
    let ghost second = r@;
    i = 0;
    while i < reduced_log_23
        invariant
            i <= reduced_log_23,
            r@ == second + Seq::new(i as nat, |i: int| ProofFile::ReducedLog23(i as usize)),
        decreases reduced_log_23 - i,
    {
        r.push(ProofFile::ReducedLog23(i));
        i = i + 1;
        assert(r@ =~= second + Seq::new(i as nat, |i: int| ProofFile::ReducedLog23(i as usize)));
    }
    let ghost third = r@;
    let mut k: usize = 0;
    while k < counts.len()
        invariant
            k <= counts@.len(),
            r@ == third + delegation_plan(counts@.take(k as int)),
        decreases counts@.len() - k,
    {
        let ghost before = r@;
        let t: u32 = counts[k].0;
        let n: usize = counts[k].1;
        let mut j: usize = 0;
        while j < n
            invariant
                j <= n,
                r@ == before + Seq::new(j as nat, |i: int| ProofFile::Delegation(t, i as usize)),
            decreases n - j,
        {
            r.push(ProofFile::Delegation(t, j));
            j = j + 1;
            assert(r@ =~= before + Seq::new(
                j as nat,
                |i: int| ProofFile::Delegation(t, i as usize),
            ));
        }
        assert(counts@.take(k + 1).drop_last() =~= counts@.take(k as int));
        assert(r@ =~= third + delegation_plan(counts@.take(k + 1)));
        k = k + 1;
    }
    assert(counts@.take(k as int) =~= counts@);
    r
}

/// How many proofs of each type a list holds.
pub open spec fn counts_of(list: Seq<(u32, Vec<Proof>)>) -> Seq<(u32, usize)> {
    list.map_values(|e: (u32, Vec<Proof>)| (e.0, e.1.len()))
}

impl ProofMetadata {
    /// The files that the counts speak of.
    pub open spec fn plan(self) -> Seq<ProofFile> {
        plan(
            self.basic_proof_count,
            self.reduced_proof_count,
            self.reduced_log_23_proof_count,
            self.delegation_proof_count@,
        )
    }

    /// The files to read, in order.
    pub fn proof_files(&self) -> (r: Vec<ProofFile>)
        ensures
            r@ == self.plan(),
    {
        list_files(
            self.basic_proof_count,
            self.reduced_proof_count,
            self.reduced_log_23_proof_count,
            &self.delegation_proof_count,
        )
    }

    /// Whether the counts are those of a list.
    pub open spec fn counts(self, list: ProofList) -> bool {
        &&& self.basic_proof_count == list.basic_proofs@.len()
        &&& self.reduced_proof_count == list.reduced_proofs@.len()
        &&& self.reduced_log_23_proof_count == list.reduced_log_23_proofs@.len()
        &&& self.delegation_proof_count@ == counts_of(list.delegation_proofs@)
    }
}

/// What the delegation proofs of a list consist of, one after the other.
pub open spec fn delegation_contents(list: Seq<(u32, Vec<Proof>)>) -> Seq<ProofModel>
    decreases list.len(),
{
    if list.len() == 0 {
        seq![]
    } else {
        delegation_contents(list.drop_last()) + circuit_proof::models(list.last().1@)
    }
}

impl ProofList {
    /// The files of the list.
    pub open spec fn plan(self) -> Seq<ProofFile> {
        plan(
            self.basic_proofs.len(),
            self.reduced_proofs.len(),
            self.reduced_log_23_proofs.len(),
            counts_of(self.delegation_proofs@),
        )
    }

    /// What the files of the list hold.
    pub open spec fn contents(self) -> Seq<ProofModel> {
        circuit_proof::models(self.basic_proofs@) + circuit_proof::models(self.reduced_proofs@)
            + circuit_proof::models(self.reduced_log_23_proofs@) + delegation_contents(
            self.delegation_proofs@,
        )
    }

    /// The files to write, in order.
    pub fn proof_files(&self) -> (r: Vec<ProofFile>)
        ensures
            r@ == self.plan(),
    {
        let counts = count_by_type(&self.delegation_proofs);
        assert(counts@ =~= counts_of(self.delegation_proofs@));
        list_files(
            self.basic_proofs.len(),
            self.reduced_proofs.len(),
            self.reduced_log_23_proofs.len(),
            &counts,
        )
    }

    /// The proofs in the order of their files.
    pub fn proofs_in_order(&self) -> (r: Vec<&Proof>)
        ensures
            views_of(r@) == self.contents(),
    {
        let mut r: Vec<&Proof> = Vec::new();
        assert(views_of(r@) =~= seq![]);
        append_references(&mut r, &self.basic_proofs);
        append_references(&mut r, &self.reduced_proofs);
        append_references(&mut r, &self.reduced_log_23_proofs);
        let ghost head = views_of(r@);
        assert(head =~= circuit_proof::models(self.basic_proofs@) + circuit_proof::models(
            self.reduced_proofs@,
        ) + circuit_proof::models(self.reduced_log_23_proofs@));
        let ghost list = self.delegation_proofs@;
        let mut i: usize = 0;
        assert(head + delegation_contents(list.take(0)) =~= head);
        while i < self.delegation_proofs.len()
            invariant
                list == self.delegation_proofs@,
                i <= list.len(),
                views_of(r@) == head + delegation_contents(list.take(i as int)),
            decreases list.len() - i,
        {
            append_references(&mut r, &self.delegation_proofs[i].1);
            assert(list.take(i + 1).drop_last() =~= list.take(i as int));
            assert(views_of(r@) =~= head + delegation_contents(list.take(i + 1)));
            i = i + 1;
        }
        assert(list.take(i as int) =~= list);
        r
    }
}

/// What the proofs consist of that are referred to.
pub open spec fn views_of(proofs: Seq<&Proof>) -> Seq<ProofModel> {
    proofs.map_values(|p: &Proof| p@)
}

/// Appends references to proofs.
fn append_references<'a>(r: &mut Vec<&'a Proof>, proofs: &'a Vec<Proof>)
    ensures
        views_of(final(r)@) == views_of(old(r)@) + circuit_proof::models(proofs@),
{
    let ghost before = r@;
    let mut i: usize = 0;
    assert(views_of(before) + circuit_proof::models(proofs@.take(0)) =~= views_of(before));
    while i < proofs.len()
        invariant
            i <= proofs@.len(),
            before == old(r)@,
            views_of(r@) == views_of(before) + circuit_proof::models(proofs@.take(i as int)),
        decreases proofs@.len() - i,
    {
        let ghost so_far = r@;
        r.push(&proofs[i]);
        assert(views_of(r@) =~= views_of(so_far).push(proofs@[i as int]@));
        assert(views_of(r@) =~= views_of(before) + circuit_proof::models(proofs@.take(i + 1)));
        i = i + 1;
    }
    assert(proofs@.take(i as int) =~= proofs@);
}

/// The number of delegation proofs of the first `n` types.
pub open spec fn offset(counts: Seq<(u32, usize)>, n: int) -> int
    decreases n,
{
    if n <= 0 {
        0
    } else {
        offset(counts, n - 1) + counts[n - 1].1
    }
}

proof fn lemma_offset_grows(counts: Seq<(u32, usize)>, m: int, n: int)
    requires
        m <= n,
    ensures
        offset(counts, m) <= offset(counts, n),
    decreases n - m,
{
    if m < n {
        lemma_offset_grows(counts, m, n - 1);
    }
}

/// The number of files of a program.
pub open spec fn num_files(metadata: ProofMetadata) -> int {
    metadata.basic_proof_count + metadata.reduced_proof_count + metadata.reduced_log_23_proof_count
        + offset(metadata.delegation_proof_count@, metadata.delegation_proof_count@.len() as int)
}

/// Whether a list holds proofs that were read in the order of the files.
pub open spec fn is_list_of(list: ProofList, metadata: ProofMetadata, proofs: Seq<Proof>) -> bool {
    let a = metadata.basic_proof_count as int;
    let b = a + metadata.reduced_proof_count;
    let c = b + metadata.reduced_log_23_proof_count;
    let counts = metadata.delegation_proof_count@;
    &&& list.basic_proofs@ == proofs.subrange(0, a)
    &&& list.reduced_proofs@ == proofs.subrange(a, b)
    &&& list.reduced_log_23_proofs@ == proofs.subrange(b, c)
    &&& list.delegation_proofs@.len() == counts.len()
    &&& forall|i: int|
        0 <= i < counts.len() ==> (#[trigger] list.delegation_proofs@[i]).0 == counts[i].0
            && list.delegation_proofs@[i].1@ == proofs.subrange(
            c + offset(counts, i),
            c + offset(counts, i + 1),
        )
}

impl ProofList {
    /// The list of proofs that were read in the order of the files.
    pub fn from_proofs_in_order(metadata: &ProofMetadata, proofs: Vec<Proof>) -> (r: ProofList)
        requires
            proofs@.len() == num_files(*metadata),
        ensures
            is_list_of(r, *metadata, proofs@),
    {
        let ghost all = proofs@;
        let ghost counts = metadata.delegation_proof_count@;
        let ghost a = metadata.basic_proof_count as int;
        let ghost b = a + metadata.reduced_proof_count;
        let ghost c = b + metadata.reduced_log_23_proof_count;
        proof {
            lemma_offset_grows(counts, 0, counts.len() as int);
        }
        let mut basic_proofs = proofs;
        let mut reduced_proofs = basic_proofs.split_off(metadata.basic_proof_count);
        let mut reduced_log_23_proofs = reduced_proofs.split_off(metadata.reduced_proof_count);
        let mut rest = reduced_log_23_proofs.split_off(metadata.reduced_log_23_proof_count);
        assert(reduced_proofs@ =~= all.subrange(a, b));
        assert(reduced_log_23_proofs@ =~= all.subrange(b, c));
        assert(rest@ =~= all.subrange(c, all.len() as int));
        let mut delegation_proofs: Vec<(u32, Vec<Proof>)> = Vec::new();
        let mut i: usize = 0;
        while i < metadata.delegation_proof_count.len()
            invariant
                counts == metadata.delegation_proof_count@,
                i <= counts.len(),
                0 <= c,
                all.len() == c + offset(counts, counts.len() as int),
                0 <= offset(counts, i as int) <= offset(counts, counts.len() as int),
                rest@ == all.subrange(c + offset(counts, i as int), all.len() as int),
                delegation_proofs@.len() == i,
                forall|j: int|
                    0 <= j < i ==> (#[trigger] delegation_proofs@[j]).0 == counts[j].0
                        && delegation_proofs@[j].1@ == all.subrange(
                        c + offset(counts, j),
                        c + offset(counts, j + 1),
                    ),
            decreases counts.len() - i,
        {
            let ghost from = c + offset(counts, i as int);
            proof {
                lemma_offset_grows(counts, i + 1, counts.len() as int);
            }
            let after = rest.split_off(metadata.delegation_proof_count[i].1);
            assert(rest@ =~= all.subrange(from, c + offset(counts, i + 1)));
            assert(after@ =~= all.subrange(c + offset(counts, i + 1), all.len() as int));
            delegation_proofs.push((metadata.delegation_proof_count[i].0, rest));
            rest = after;
            i = i + 1;
        }
        ProofList { basic_proofs, reduced_proofs, reduced_log_23_proofs, delegation_proofs }
    }
}

/// The first `n` entries of a list hold as many proofs as their counts say.
proof fn lemma_contents_length(list: Seq<(u32, Vec<Proof>)>)
    ensures
        delegation_contents(list).len() == offset(counts_of(list), list.len() as int),
    decreases list.len(),
{
    if list.len() > 0 {
        let fewer = list.drop_last();
        lemma_contents_length(fewer);
        lemma_offset_of_prefix(counts_of(list), counts_of(fewer), fewer.len() as int);
    }
}

proof fn lemma_offset_of_prefix(counts: Seq<(u32, usize)>, fewer: Seq<(u32, usize)>, n: int)
    requires
        0 <= n <= fewer.len() <= counts.len(),
        forall|i: int| 0 <= i < n ==> counts[i] == fewer[i],
    ensures
        offset(counts, n) == offset(fewer, n),
    decreases n,
{
    if n > 0 {
        lemma_offset_of_prefix(counts, fewer, n - 1);
    }
}

/// The proofs of the entry `i` are found at its offset.
proof fn lemma_contents_at(list: Seq<(u32, Vec<Proof>)>, i: int)
    requires
        0 <= i < list.len(),
    ensures
        0 <= offset(counts_of(list), i) <= offset(counts_of(list), i + 1)
            <= delegation_contents(list).len(),
        delegation_contents(list).subrange(
            offset(counts_of(list), i),
            offset(counts_of(list), i + 1),
        ) =~= circuit_proof::models(list[i].1@),
    decreases list.len(),
{
    let fewer = list.drop_last();
    lemma_contents_length(list);
    lemma_contents_length(fewer);
    lemma_offset_of_prefix(counts_of(list), counts_of(fewer), i);
    lemma_offset_grows(counts_of(list), 0, i);
    lemma_offset_grows(counts_of(list), i + 1, list.len() as int);
    if i < fewer.len() {
        lemma_contents_at(fewer, i);
        lemma_offset_of_prefix(counts_of(list), counts_of(fewer), i + 1);
        assert(delegation_contents(list).subrange(
            offset(counts_of(list), i),
            offset(counts_of(list), i + 1),
        ) =~= delegation_contents(fewer).subrange(
            offset(counts_of(list), i),
            offset(counts_of(list), i + 1),
        ));
    }
}

/// A list that was written to files and read back with the right counts holds the same proofs.
pub proof fn law_written_list_is_read_back(
    list: ProofList,
    metadata: ProofMetadata,
    read: Seq<Proof>,
    loaded: ProofList,
)
    requires
        metadata.counts(list),
        circuit_proof::models(read) == list.contents(),
        is_list_of(loaded, metadata, read),
    ensures
        metadata.plan() == list.plan(),
        read.len() == num_files(metadata),
        circuit_proof::models(loaded.basic_proofs@) == circuit_proof::models(list.basic_proofs@),
        circuit_proof::models(loaded.reduced_proofs@) == circuit_proof::models(
            list.reduced_proofs@,
        ),
        circuit_proof::models(loaded.reduced_log_23_proofs@) == circuit_proof::models(
            list.reduced_log_23_proofs@,
        ),
        loaded.delegation_proofs@.len() == list.delegation_proofs@.len(),
        forall|i: int|
            0 <= i < list.delegation_proofs@.len() ==> (#[trigger] loaded.delegation_proofs@[i]).0
                == list.delegation_proofs@[i].0 && circuit_proof::models(
                loaded.delegation_proofs@[i].1@,
            ) == circuit_proof::models(list.delegation_proofs@[i].1@),
{
    let a = metadata.basic_proof_count as int;
    let b = a + metadata.reduced_proof_count;
    let c = b + metadata.reduced_log_23_proof_count;
    let counts = metadata.delegation_proof_count@;
    let all = list.contents();
    let tail = delegation_contents(list.delegation_proofs@);
    lemma_contents_length(list.delegation_proofs@);
    assert(read.len() == all.len());
    assert(circuit_proof::models(loaded.basic_proofs@) =~= all.subrange(0, a));
    assert(all.subrange(0, a) =~= circuit_proof::models(list.basic_proofs@));
    assert(circuit_proof::models(loaded.reduced_proofs@) =~= all.subrange(a, b));
    assert(all.subrange(a, b) =~= circuit_proof::models(list.reduced_proofs@));
    assert(circuit_proof::models(loaded.reduced_log_23_proofs@) =~= all.subrange(b, c));
    assert(all.subrange(b, c) =~= circuit_proof::models(list.reduced_log_23_proofs@));
    assert forall|i: int| 0 <= i < list.delegation_proofs@.len() implies (
    #[trigger] loaded.delegation_proofs@[i]).0 == list.delegation_proofs@[i].0
        && circuit_proof::models(loaded.delegation_proofs@[i].1@) == circuit_proof::models(
        list.delegation_proofs@[i].1@,
    ) by {
        lemma_contents_at(list.delegation_proofs@, i);
        let from = offset(counts, i);
        let to = offset(counts, i + 1);
        assert(circuit_proof::models(loaded.delegation_proofs@[i].1@) =~= all.subrange(
            c + from,
            c + to,
        ));
        assert(all.subrange(c + from, c + to) =~= tail.subrange(from, to));
    }
}

proof fn lemma_sum_is_offset(counts: Seq<(u32, usize)>)
    ensures
        program::sum_of(counts) == offset(counts, counts.len() as int),
        delegation_plan(counts).len() == offset(counts, counts.len() as int),
    decreases counts.len(),
{
    if counts.len() > 0 {
        let fewer = counts.drop_last();
        lemma_sum_is_offset(fewer);
        lemma_offset_of_prefix(counts, fewer, fewer.len() as int);
    }
}

/// What a proof is split into fits together: the metadata counts every proof of the list, so that
/// the list can be written to files and read back by its metadata.
pub proof fn law_split_counts_every_proof(p: ProgramProof, metadata: ProofMetadata, list: ProofList)
    requires
        program::is_split_of(p, metadata, list),
    ensures
        metadata.counts(list),
        metadata.plan() == list.plan(),
        metadata.total() == list.contents().len(),
{
    assert(metadata.delegation_proof_count@ =~= counts_of(list.delegation_proofs@));
    lemma_sum_is_offset(metadata.delegation_proof_count@);
    lemma_contents_length(list.delegation_proofs@);
}

/// Whether metadata counts no more proofs than a list holds, type by type.
pub open spec fn counts_within(metadata: ProofMetadata, list: ProofList) -> bool {
    let counts = metadata.delegation_proof_count@;
    &&& metadata.basic_proof_count <= list.basic_proofs@.len()
    &&& metadata.reduced_proof_count <= list.reduced_proofs@.len()
    &&& metadata.reduced_log_23_proof_count <= list.reduced_log_23_proofs@.len()
    &&& counts.len() <= list.delegation_proofs@.len()
    &&& forall|i: int|
        0 <= i < counts.len() ==> (#[trigger] counts[i]).0 == list.delegation_proofs@[i].0
            && counts[i].1 <= list.delegation_proofs@[i].1@.len()
}

/// Whether the files of a list hold `p` under the name of `file`.
pub open spec fn is_held(list: ProofList, file: ProofFile, p: ProofModel) -> bool {
    exists|j: int|
        0 <= j < list.plan().len() && #[trigger] list.plan()[j] == file && list.contents()[j] == p
}

/// Whether proofs were read from the files of a list by the counts of metadata.
pub open spec fn is_read_from(
    list: ProofList,
    metadata: ProofMetadata,
    read: Seq<Proof>,
) -> bool {
    &&& read.len() == metadata.plan().len()
    &&& forall|k: int|
        0 <= k < read.len() ==> is_held(list, metadata.plan()[k], (#[trigger] read[k])@)
}

/// The file of the proof `m` of the type `i`.
proof fn lemma_delegation_file_at(counts: Seq<(u32, usize)>, i: int, m: int)
    requires
        0 <= i < counts.len(),
        0 <= m < counts[i].1,
    ensures
        0 <= offset(counts, i),
        offset(counts, i) + m < delegation_plan(counts).len(),
        delegation_plan(counts)[offset(counts, i) + m] == ProofFile::Delegation(
            counts[i].0,
            m as usize,
        ),
    decreases counts.len(),
{
    let fewer = counts.drop_last();
    lemma_offset_grows(counts, 0, i);
    lemma_sum_is_offset(fewer);
    lemma_offset_of_prefix(counts, fewer, i);
    if i < fewer.len() {
        lemma_delegation_file_at(fewer, i, m);
    }
}

/// A file of a delegation proof holds the proof that its name speaks of.
proof fn lemma_delegation_file_holds(list: Seq<(u32, Vec<Proof>)>, j: int)
    requires
        0 <= j < delegation_plan(counts_of(list)).len(),
    ensures
        delegation_plan(counts_of(list)).len() == delegation_contents(list).len(),
        delegation_plan(counts_of(list))[j] is Delegation,
        exists|k: int|
            #![trigger list[k]]
            0 <= k < list.len() && list[k].0 == delegation_plan(
                counts_of(list),
            )[j]->Delegation_0 && delegation_plan(counts_of(list))[j]->Delegation_1
                < list[k].1@.len() && delegation_contents(list)[j]
                == list[k].1@[delegation_plan(counts_of(list))[j]->Delegation_1 as int]@,
    decreases list.len(),
{
    let counts = counts_of(list);
    let fewer = list.drop_last();
    assert(counts.drop_last() =~= counts_of(fewer));
    lemma_sum_is_offset(counts);
    lemma_contents_length(list);
    lemma_sum_is_offset(counts_of(fewer));
    lemma_contents_length(fewer);
    let before = delegation_plan(counts_of(fewer)).len();
    if j < before {
        lemma_delegation_file_holds(fewer, j);
        let k = choose|k: int|
            #![trigger fewer[k]]
            0 <= k < fewer.len() && fewer[k].0 == delegation_plan(
                counts_of(fewer),
            )[j]->Delegation_0 && delegation_plan(counts_of(fewer))[j]->Delegation_1
                < fewer[k].1@.len() && delegation_contents(fewer)[j]
                == fewer[k].1@[delegation_plan(counts_of(fewer))[j]->Delegation_1 as int]@;
        assert(list[k] == fewer[k]);
    } else {
        let last = list.len() - 1;
        assert(counts.last() == (list[last].0, list[last].1.len()));
        assert(delegation_plan(counts)[j] == ProofFile::Delegation(
            list[last].0,
            (j - before) as usize,
        ));
        assert(delegation_contents(list)[j] == circuit_proof::models(list[last].1@)[j - before]);
    }
}

/// Metadata that counts no more than a list holds only asks for files that the list has.
pub proof fn law_smaller_counts_find_their_files(metadata: ProofMetadata, list: ProofList, k: int)
    requires
        counts_within(metadata, list),
        0 <= k < metadata.plan().len(),
    ensures
        list.plan().contains(metadata.plan()[k]),
{
    let a = metadata.basic_proof_count as int;
    let b = a + metadata.reduced_proof_count;
    let c = b + metadata.reduced_log_23_proof_count;
    let counts = metadata.delegation_proof_count@;
    let all = counts_of(list.delegation_proofs@);
    let basic = list.basic_proofs@.len();
    let reduced = basic + list.reduced_proofs@.len();
    let start = reduced + list.reduced_log_23_proofs@.len();
    let file = metadata.plan()[k];
    if k < a {
        assert(list.plan()[k] == file);
    } else if k < b {
        assert(list.plan()[basic + k - a] == file);
    } else if k < c {
        assert(list.plan()[reduced + k - b] == file);
    } else {
        let i = lemma_type_of(counts, k - c);
        let m = k - c - offset(counts, i);
        lemma_delegation_file_at(counts, i, m);
        lemma_delegation_file_at(all, i, m);
        assert(list.plan()[start + offset(all, i) + m] == file);
    }
}

/// The type to which the delegation proof at an index belongs.
proof fn lemma_type_of(counts: Seq<(u32, usize)>, index: int) -> (i: int)
    requires
        0 <= index < delegation_plan(counts).len(),
    ensures
        0 <= i < counts.len(),
        offset(counts, i) <= index < offset(counts, i + 1),
    decreases counts.len(),
{
    let fewer = counts.drop_last();
    lemma_sum_is_offset(counts);
    lemma_sum_is_offset(fewer);
    lemma_offset_of_prefix(counts, fewer, fewer.len() as int);
    if index < delegation_plan(fewer).len() {
        let i = lemma_type_of(fewer, index);
        lemma_offset_of_prefix(counts, fewer, i);
        lemma_offset_of_prefix(counts, fewer, i + 1);
        i
    } else {
        counts.len() - 1
    }
}

/// A proof that was read under the name of a delegation proof is that one.
proof fn lemma_held_delegation(list: ProofList, i: int, m: int, p: ProofModel)
    requires
        0 <= i < list.delegation_proofs@.len(),
        0 <= m < list.delegation_proofs@[i].1@.len(),
        forall|x: int, y: int|
            0 <= x < y < list.delegation_proofs@.len() ==> (
            #[trigger] list.delegation_proofs@[x]).0 != (#[trigger] list.delegation_proofs@[y]).0,
        is_held(list, ProofFile::Delegation(list.delegation_proofs@[i].0, m as usize), p),
    ensures
        p == list.delegation_proofs@[i].1@[m]@,
{
    let entries = list.delegation_proofs@;
    let file = ProofFile::Delegation(entries[i].0, m as usize);
    assert(m < entries[i].1.len());
    let j = choose|j: int|
        0 <= j < list.plan().len() && #[trigger] list.plan()[j] == file && list.contents()[j] == p;
    let start = list.basic_proofs@.len() + list.reduced_proofs@.len()
        + list.reduced_log_23_proofs@.len();
    assert(j >= start);
    let d = j - start;
    lemma_delegation_file_holds(entries, d);
    assert(delegation_plan(counts_of(entries))[d] == file);
    assert(list.contents()[j] == delegation_contents(entries)[d]);
    let k = choose|k: int|
        #![trigger entries[k]]
        0 <= k < entries.len() && entries[k].0 == file->Delegation_0 && file->Delegation_1
            < entries[k].1@.len() && delegation_contents(entries)[d]
            == entries[k].1@[file->Delegation_1 as int]@;
    assert(k == i);
}

/// A proof that was read under the name of a proof of a main circuit is that one.
proof fn lemma_held_main(list: ProofList, file: ProofFile, p: ProofModel)
    requires
        is_held(list, file, p),
        !(file is Delegation),
    ensures
        match file {
            ProofFile::Basic(i) => p == list.basic_proofs@[i as int]@,
            ProofFile::Reduced(i) => p == list.reduced_proofs@[i as int]@,
            ProofFile::ReducedLog23(i) => p == list.reduced_log_23_proofs@[i as int]@,
            ProofFile::Delegation(_, _) => true,
        },
{
    let j = choose|j: int|
        0 <= j < list.plan().len() && #[trigger] list.plan()[j] == file && list.contents()[j] == p;
    let start = list.basic_proofs@.len() + list.reduced_proofs@.len()
        + list.reduced_log_23_proofs@.len();
    let counts = counts_of(list.delegation_proofs@);
    if j >= start {
        lemma_delegation_files(counts, j - start);
    }
}

/// A list that was written to files and is read back with smaller counts gives the first proofs of
/// each kind, in their order.
pub proof fn law_smaller_counts_give_prefixes(
    list: ProofList,
    metadata: ProofMetadata,
    read: Seq<Proof>,
    loaded: ProofList,
)
    requires
        counts_within(metadata, list),
        forall|x: int, y: int|
            0 <= x < y < list.delegation_proofs@.len() ==> (
            #[trigger] list.delegation_proofs@[x]).0 != (#[trigger] list.delegation_proofs@[y]).0,
        is_read_from(list, metadata, read),
        is_list_of(loaded, metadata, read),
    ensures
        read.len() == num_files(metadata),
        circuit_proof::models(loaded.basic_proofs@) == circuit_proof::models(
            list.basic_proofs@,
        ).take(metadata.basic_proof_count as int),
        circuit_proof::models(loaded.reduced_proofs@) == circuit_proof::models(
            list.reduced_proofs@,
        ).take(metadata.reduced_proof_count as int),
        circuit_proof::models(loaded.reduced_log_23_proofs@) == circuit_proof::models(
            list.reduced_log_23_proofs@,
        ).take(metadata.reduced_log_23_proof_count as int),
        loaded.delegation_proofs@.len() == metadata.delegation_proof_count@.len(),
        forall|i: int|
            0 <= i < metadata.delegation_proof_count@.len() ==> (
            #[trigger] loaded.delegation_proofs@[i]).0 == list.delegation_proofs@[i].0
                && circuit_proof::models(loaded.delegation_proofs@[i].1@) == circuit_proof::models(
                list.delegation_proofs@[i].1@,
            ).take(metadata.delegation_proof_count@[i].1 as int),
{
    let a = metadata.basic_proof_count as int;
    let b = a + metadata.reduced_proof_count;
    let c = b + metadata.reduced_log_23_proof_count;
    let counts = metadata.delegation_proof_count@;
    lemma_sum_is_offset(counts);
    assert forall|k: int| 0 <= k < c implies (#[trigger] read[k])@ == if k < a {
        list.basic_proofs@[k]@
    } else if k < b {
        list.reduced_proofs@[k - a]@
    } else {
        list.reduced_log_23_proofs@[k - b]@
    } by {
        lemma_held_main(list, metadata.plan()[k], read[k]@);
    }
    assert(circuit_proof::models(loaded.basic_proofs@) =~= circuit_proof::models(
        list.basic_proofs@,
    ).take(a));
    assert(circuit_proof::models(loaded.reduced_proofs@) =~= circuit_proof::models(
        list.reduced_proofs@,
    ).take(b - a));
    assert(circuit_proof::models(loaded.reduced_log_23_proofs@) =~= circuit_proof::models(
        list.reduced_log_23_proofs@,
    ).take(c - b));
    assert forall|i: int| 0 <= i < counts.len() implies (#[trigger] loaded.delegation_proofs@[i]).0
        == list.delegation_proofs@[i].0 && circuit_proof::models(loaded.delegation_proofs@[i].1@)
        == circuit_proof::models(list.delegation_proofs@[i].1@).take(counts[i].1 as int) by {
        let from = c + offset(counts, i);
        lemma_offset_grows(counts, 0, i);
        lemma_offset_grows(counts, i + 1, counts.len() as int);
        let read_ones = circuit_proof::models(loaded.delegation_proofs@[i].1@);
        assert forall|m: int| 0 <= m < counts[i].1 implies #[trigger] read_ones[m]
            == list.delegation_proofs@[i].1@[m]@ by {
            lemma_delegation_file_at(counts, i, m);
            assert(metadata.plan()[from + m] == ProofFile::Delegation(counts[i].0, m as usize));
            lemma_held_delegation(list, i, m, read[from + m]@);
        }
        assert(read_ones =~= circuit_proof::models(list.delegation_proofs@[i].1@).take(
            counts[i].1 as int,
        ));
    }
}

/// A text without a separator, the separator, and another text can be told apart again.
pub proof fn lemma_separated(
    a: Seq<char>,
    b: Seq<char>,
    c: Seq<char>,
    d: Seq<char>,
    separator: char,
)
    requires
        forall|i: int| 0 <= i < a.len() ==> a[i] != separator,
        forall|i: int| 0 <= i < c.len() ==> c[i] != separator,
        a.push(separator) + b == c.push(separator) + d,
    ensures
        a == c,
        b == d,
{
    let left = a.push(separator) + b;
    let right = c.push(separator) + d;
    if a.len() < c.len() {
        assert(left[a.len() as int] == right[a.len() as int]);
        assert(c[a.len() as int] == separator);
    }
    if c.len() < a.len() {
        assert(left[c.len() as int] == right[c.len() as int]);
        assert(a[c.len() as int] == separator);
    }
    assert forall|i: int| 0 <= i < a.len() implies a[i] == c[i] by {
        assert(left[i] == right[i]);
    }
    assert(a =~= c);
    assert(b =~= left.skip(a.len() as int + 1));
    assert(d =~= right.skip(c.len() as int + 1));
}

/// No decimal digit is one of the other characters of a name.
pub proof fn lemma_digits_only(n: nat)
    ensures
        text::decimal(n).len() > 0,
        forall|i: int|
            0 <= i < text::decimal(n).len() ==> #[trigger] text::decimal(n)[i] != '_'
                && text::decimal(n)[i] != '.',
{
    text::law_decimal_digits(n);
    assert forall|i: int| 0 <= i < text::decimal(n).len() implies #[trigger] text::decimal(n)[i]
        != '_' && text::decimal(n)[i] != '.' by {
        assert(text::is_decimal_digit(text::decimal(n)[i]));
    }
}

/// A number followed by the ending of a name determines the number.
proof fn lemma_number_from_end(m: nat, n: nat)
    requires
        text::decimal(m) + ".json"@ == text::decimal(n) + ".json"@,
    ensures
        m == n,
{
    reveal_strlit(".json");
    lemma_digits_only(m);
    lemma_digits_only(n);
    let rest = seq!['j', 's', 'o', 'n'];
    assert(text::decimal(m).push('.') + rest =~= text::decimal(m) + ".json"@);
    assert(text::decimal(n).push('.') + rest =~= text::decimal(n) + ".json"@);
    lemma_separated(text::decimal(m), rest, text::decimal(n), rest, '.');
    text::law_decimal_is_injective(m, n);
}

/// Different proofs have files of different names.
pub proof fn law_names_are_distinct(f: ProofFile, g: ProofFile)
    requires
        f.name() == g.name(),
    ensures
        f == g,
{
    reveal_strlit("proof_");
    reveal_strlit("reduced_proof_");
    reveal_strlit("reduced_log_23_proof_");
    reveal_strlit("delegation_proof_");
    lemma_digits_only(f.number());
    lemma_digits_only(g.number());
    let ending = ".json"@;
    let nf = text::decimal(f.number());
    let ng = text::decimal(g.number());
    assert(f.name()[0] == f.prefix()[0]);
    assert(g.name()[0] == g.prefix()[0]);
    assert(f is Reduced || f is ReducedLog23 ==> f.name()[8] == f.prefix()[8]);
    assert(g is Reduced || g is ReducedLog23 ==> g.name()[8] == g.prefix()[8]);
    match (f, g) {
        (ProofFile::Basic(_), ProofFile::Basic(_)) => {
            assert(nf + ending =~= f.name().skip(6));
            assert(ng + ending =~= g.name().skip(6));
            lemma_number_from_end(f.number(), g.number());
        },
        (ProofFile::Reduced(_), ProofFile::Reduced(_)) => {
            assert(nf + ending =~= f.name().skip(14));
            assert(ng + ending =~= g.name().skip(14));
            lemma_number_from_end(f.number(), g.number());
        },
        (ProofFile::ReducedLog23(_), ProofFile::ReducedLog23(_)) => {
            assert(nf + ending =~= f.name().skip(21));
            assert(ng + ending =~= g.name().skip(21));
            lemma_number_from_end(f.number(), g.number());
        },
        (ProofFile::Delegation(t, _), ProofFile::Delegation(u, _)) => {
            let tf = text::decimal(t as nat);
            let tg = text::decimal(u as nat);
            lemma_digits_only(t as nat);
            lemma_digits_only(u as nat);
            assert(tf.push('_') + (nf + ending) =~= f.name().skip(17));
            assert(tg.push('_') + (ng + ending) =~= g.name().skip(17));
            lemma_separated(tf, nf + ending, tg, ng + ending, '_');
            text::law_decimal_is_injective(t as nat, u as nat);
            lemma_number_from_end(f.number(), g.number());
        },
        _ => {
            assert(false);
        },
    }
}

/// The files of delegation proofs belong to the listed types.
proof fn lemma_delegation_files(counts: Seq<(u32, usize)>, i: int)
    requires
        0 <= i < delegation_plan(counts).len(),
    ensures
        delegation_plan(counts)[i] is Delegation,
        exists|k: int|
            0 <= k < counts.len() && (#[trigger] counts[k]).0
                == delegation_plan(counts)[i]->Delegation_0,
    decreases counts.len(),
{
    let fewer = counts.drop_last();
    if i < delegation_plan(fewer).len() {
        lemma_delegation_files(fewer, i);
        let k = choose|k: int|
            0 <= k < fewer.len() && (#[trigger] fewer[k]).0 == delegation_plan(
                fewer,
            )[i]->Delegation_0;
        assert(counts[k] == fewer[k]);
    } else {
        assert(counts[counts.len() - 1] == counts.last());
    }
}

proof fn lemma_delegation_files_differ(counts: Seq<(u32, usize)>)
    requires
        forall|i: int, j: int|
            0 <= i < j < counts.len() ==> (#[trigger] counts[i]).0 != (#[trigger] counts[j]).0,
    ensures
        delegation_plan(counts).no_duplicates(),
    decreases counts.len(),
{
    if counts.len() > 0 {
        let fewer = counts.drop_last();
        lemma_delegation_files_differ(fewer);
        let files = delegation_plan(counts);
        let n = delegation_plan(fewer).len();
        assert forall|i: int, j: int| 0 <= i < j < files.len() implies files[i] != files[j] by {
            if i < n && j >= n {
                lemma_delegation_files(fewer, i);
                let k = choose|k: int|
                    0 <= k < fewer.len() && (#[trigger] fewer[k]).0 == delegation_plan(
                        fewer,
                    )[i]->Delegation_0;
                assert(counts[k].0 != counts[counts.len() - 1].0);
            } else if i < n {
                assert(delegation_plan(fewer)[i] != delegation_plan(fewer)[j]);
            }
        }
    }
}

/// When no type is listed twice no file is written twice.
pub proof fn law_no_file_is_written_twice(
    basic: usize,
    reduced: usize,
    reduced_log_23: usize,
    counts: Seq<(u32, usize)>,
)
    requires
        forall|i: int, j: int|
            0 <= i < j < counts.len() ==> (#[trigger] counts[i]).0 != (#[trigger] counts[j]).0,
    ensures
        plan(basic, reduced, reduced_log_23, counts).no_duplicates(),
{
    let files = plan(basic, reduced, reduced_log_23, counts);
    let c = basic + reduced + reduced_log_23;
    lemma_delegation_files_differ(counts);
    assert forall|i: int, j: int| 0 <= i < j < files.len() implies files[i] != files[j] by {
        if j >= c {
            lemma_delegation_files(counts, j - c);
            if i >= c {
                assert(delegation_plan(counts)[i - c] != delegation_plan(counts)[j - c]);
            }
        }
    }
}

/// A file is named after its kind, its delegation type if it has one, and its number.
pub proof fn law_names_of_files(i: usize, t: u32)
    ensures
        ProofFile::Basic(i).name() == "proof_"@ + text::decimal(i as nat) + ".json"@,
        ProofFile::Reduced(i).name() == "reduced_proof_"@ + text::decimal(i as nat) + ".json"@,
        ProofFile::ReducedLog23(i).name() == "reduced_log_23_proof_"@ + text::decimal(i as nat)
            + ".json"@,
        ProofFile::Delegation(t, i).name() == "delegation_proof_"@ + text::decimal(t as nat)
            + "_"@ + text::decimal(i as nat) + ".json"@,
{
    reveal_strlit("_");
    assert("_"@ =~= seq!['_']);
    assert(ProofFile::Delegation(t, i).name() =~= "delegation_proof_"@ + text::decimal(t as nat)
        + "_"@ + text::decimal(i as nat) + ".json"@);
}

/// The proofs of each kind are numbered from zero on; the kinds follow each other, and so do the
/// delegation types.
pub proof fn law_order_of_files(
    basic: usize,
    reduced: usize,
    reduced_log_23: usize,
    counts: Seq<(u32, usize)>,
    more: Seq<(u32, usize)>,
    t: u32,
    n: usize,
    k: int,
)
    ensures
        plan(basic, 0, 0, seq![]).len() == basic,
        0 <= k < basic ==> plan(basic, 0, 0, seq![])[k] == ProofFile::Basic(k as usize),
        plan(0, reduced, 0, seq![]).len() == reduced,
        0 <= k < reduced ==> plan(0, reduced, 0, seq![])[k] == ProofFile::Reduced(k as usize),
        plan(0, 0, reduced_log_23, seq![]).len() == reduced_log_23,
        0 <= k < reduced_log_23 ==> plan(0, 0, reduced_log_23, seq![])[k]
            == ProofFile::ReducedLog23(k as usize),
        plan(0, 0, 0, seq![(t, n)]).len() == n,
        0 <= k < n ==> plan(0, 0, 0, seq![(t, n)])[k] == ProofFile::Delegation(t, k as usize),
        plan(basic, reduced, reduced_log_23, counts) == plan(basic, 0, 0, seq![]) + plan(
            0,
            reduced,
            0,
            seq![],
        ) + plan(0, 0, reduced_log_23, seq![]) + plan(0, 0, 0, counts),
        plan(0, 0, 0, counts + more) == plan(0, 0, 0, counts) + plan(0, 0, 0, more),
{
    let none = Seq::<(u32, usize)>::empty();
    assert(seq![(t, n)].drop_last() =~= none);
    assert(delegation_plan(none) =~= seq![]);
    assert(plan(0, 0, 0, seq![(t, n)]) =~= Seq::new(
        n as nat,
        |i: int| ProofFile::Delegation(t, i as usize),
    ));
    lemma_plans_join(counts, more);
    assert(plan(0, 0, 0, counts) =~= delegation_plan(counts));
    assert(plan(0, 0, 0, more) =~= delegation_plan(more));
    assert(plan(0, 0, 0, counts + more) =~= delegation_plan(counts + more));
    assert(plan(basic, reduced, reduced_log_23, counts) =~= plan(basic, 0, 0, none) + plan(
        0,
        reduced,
        0,
        none,
    ) + plan(0, 0, reduced_log_23, none) + plan(0, 0, 0, counts));
}

proof fn lemma_plans_join(counts: Seq<(u32, usize)>, more: Seq<(u32, usize)>)
    ensures
        delegation_plan(counts + more) == delegation_plan(counts) + delegation_plan(more),
    decreases more.len(),
{
    if more.len() == 0 {
        assert(counts + more =~= counts);
        assert(delegation_plan(counts) + delegation_plan(more) =~= delegation_plan(counts));
    } else {
        lemma_plans_join(counts, more.drop_last());
        assert((counts + more).drop_last() =~= counts + more.drop_last());
        assert(delegation_plan(counts + more) =~= delegation_plan(counts) + delegation_plan(more));
    }
}

proof fn lemma_contents_join(list: Seq<(u32, Vec<Proof>)>, more: Seq<(u32, Vec<Proof>)>)
    ensures
        delegation_contents(list + more) == delegation_contents(list) + delegation_contents(more),
    decreases more.len(),
{
    if more.len() == 0 {
        assert(list + more =~= list);
        assert(delegation_contents(list) + delegation_contents(more) =~= delegation_contents(list));
    } else {
        lemma_contents_join(list, more.drop_last());
        assert((list + more).drop_last() =~= list + more.drop_last());
        assert(delegation_contents(list + more) =~= delegation_contents(list)
            + delegation_contents(more));
    }
}

proof fn lemma_proof_in_its_file(list: Seq<(u32, Vec<Proof>)>, i: int, k: int)
    requires
        0 <= i < list.len(),
        0 <= k < list[i].1@.len(),
    ensures
        ({
            let at = delegation_contents(list.take(i)).len() + k;
            &&& at < delegation_plan(counts_of(list)).len()
            &&& delegation_plan(counts_of(list)).len() == delegation_contents(list).len()
            &&& delegation_plan(counts_of(list))[at] == ProofFile::Delegation(
                list[i].0,
                k as usize,
            )
            &&& delegation_contents(list)[at] == list[i].1@[k]@
        }),
{
    let (first, last) = (list.take(i), list.skip(i));
    let (one, rest) = (last.take(1), last.skip(1));
    assert(list =~= first + last);
    assert(last =~= one + rest);
    assert(counts_of(list) =~= counts_of(first) + counts_of(last));
    assert(counts_of(last) =~= counts_of(one) + counts_of(rest));
    lemma_contents_join(first, last);
    lemma_contents_join(one, rest);
    lemma_plans_join(counts_of(first), counts_of(last));
    lemma_plans_join(counts_of(one), counts_of(rest));
    lemma_contents_length(first);
    lemma_contents_length(list);
    lemma_sum_is_offset(counts_of(first));
    lemma_sum_is_offset(counts_of(list));
    assert(one.drop_last() =~= seq![]);
    assert(delegation_contents(seq![]) =~= seq![]);
    assert(delegation_plan(seq![]) =~= seq![]);
    assert(delegation_contents(one) =~= circuit_proof::models(list[i].1@));
    assert(counts_of(one).drop_last() =~= seq![]);
    assert(counts_of(one).last() == (list[i].0, list[i].1.len()));
}

/// Every proof of a list stands in the file of its kind and number: the file and the proof have the
/// same place in the two orders.
pub proof fn law_every_proof_stands_in_its_file(list: ProofList, i: int, k: int)
    ensures
        list.plan().len() == list.contents().len(),
        0 <= k < list.basic_proofs@.len() ==> is_held(
            list,
            ProofFile::Basic(k as usize),
            list.basic_proofs@[k]@,
        ),
        0 <= k < list.reduced_proofs@.len() ==> is_held(
            list,
            ProofFile::Reduced(k as usize),
            list.reduced_proofs@[k]@,
        ),
        0 <= k < list.reduced_log_23_proofs@.len() ==> is_held(
            list,
            ProofFile::ReducedLog23(k as usize),
            list.reduced_log_23_proofs@[k]@,
        ),
        0 <= i < list.delegation_proofs@.len() && 0 <= k < list.delegation_proofs@[i].1@.len()
            ==> is_held(
            list,
            ProofFile::Delegation(list.delegation_proofs@[i].0, k as usize),
            list.delegation_proofs@[i].1@[k]@,
        ),
{
    let a = list.basic_proofs@.len() as int;
    let b = a + list.reduced_proofs@.len();
    let c = b + list.reduced_log_23_proofs@.len();
    let tail = list.delegation_proofs@;
    lemma_contents_length(tail);
    lemma_sum_is_offset(counts_of(tail));
    if 0 <= k < list.basic_proofs@.len() {
        assert(list.plan()[k] == ProofFile::Basic(k as usize));
    }
    if 0 <= k < list.reduced_proofs@.len() {
        assert(list.plan()[a + k] == ProofFile::Reduced(k as usize));
    }
    if 0 <= k < list.reduced_log_23_proofs@.len() {
        assert(list.plan()[b + k] == ProofFile::ReducedLog23(k as usize));
    }
    if 0 <= i < tail.len() && 0 <= k < tail[i].1@.len() {
        lemma_proof_in_its_file(tail, i, k);
        let at = delegation_contents(tail.take(i)).len() + k;
        assert(list.plan()[c + at] == ProofFile::Delegation(tail[i].0, k as usize));
        assert(list.contents()[c + at] == tail[i].1@[k]@);
    }
}

} // verus!
