//! One proof of a circuit.
use crate::tables::lookup::copy_of;
use crate::trace::transcript::MerkleTreeCapVarLength;
use vstd::prelude::*;

verus! {

/// A proof, with what a verifier reads of it in the form of words.
pub struct Proof {
    /// Everything but the queries, for a circuit that initializes and tears down memory.
    pub skeleton: Vec<u32>,
    /// Everything but the queries, for a circuit that does not.
    pub skeleton_without_shuffle_ram: Vec<u32>,
    pub queries: Vec<Vec<u32>>,
    pub setup_tree_caps: Vec<MerkleTreeCapVarLength>,
}

/// What a proof consists of.
#[verifier::ext_equal]
pub struct ProofModel {
    pub skeleton: Seq<u32>,
    pub skeleton_without_shuffle_ram: Seq<u32>,
    pub queries: Seq<Seq<u32>>,
    pub setup_tree_caps: Seq<Seq<[u32; 8]>>,
}

impl ProofModel {
    /// The words of everything but the queries.
    pub open spec fn skeleton_words(self, shuffle_ram: bool) -> Seq<u32> {
        if shuffle_ram {
            self.skeleton
        } else {
            self.skeleton_without_shuffle_ram
        }
    }

    /// All words of the proof.
    pub open spec fn full_words(self, shuffle_ram: bool) -> Seq<u32> {
        self.skeleton_words(shuffle_ram) + self.queries.flatten()
    }
}

impl View for Proof {
    type V = ProofModel;

    open spec fn view(&self) -> ProofModel {
        ProofModel {
            skeleton: self.skeleton@,
            skeleton_without_shuffle_ram: self.skeleton_without_shuffle_ram@,
            queries: self.queries@.map_values(|q: Vec<u32>| q@),
            setup_tree_caps: self.setup_tree_caps@.map_values(|c: MerkleTreeCapVarLength| c.cap@),
        }
    }
}

/// What proofs consist of.
pub open spec fn models(proofs: Seq<Proof>) -> Seq<ProofModel> {
    proofs.map_values(|p: Proof| p@)
}

/// Appends words.
pub fn append_words(result: &mut Vec<u32>, words: &[u32])
    ensures
        final(result)@ == old(result)@ + words@,
{
    let ghost before = result@;
    let mut i: usize = 0;
    assert(before + words@.take(0) =~= before);
    while i < words.len()
        invariant
            i <= words@.len(),
            before == old(result)@,
            result@ == before + words@.take(i as int),
        decreases words@.len() - i,
    {
        result.push(words[i]);
        assert(result@ =~= before + words@.take(i + 1));
        i = i + 1;
    }
    assert(words@.take(i as int) =~= words@);
}

/// A copy of lists of words.
fn copy_lists(lists: &Vec<Vec<u32>>) -> (r: Vec<Vec<u32>>)
    ensures
        r@.map_values(|q: Vec<u32>| q@) == lists@.map_values(|q: Vec<u32>| q@),
{
    let mut r: Vec<Vec<u32>> = Vec::new();
    let mut i: usize = 0;
    while i < lists.len()
        invariant
            i <= lists@.len(),
            r@.len() == i,
            forall|j: int| 0 <= j < i ==> (#[trigger] r@[j])@ == lists@[j]@,
        decreases lists@.len() - i,
    {
        r.push(copy_of(lists[i].as_slice()));
        i = i + 1;
    }
    assert(r@.map_values(|q: Vec<u32>| q@) =~= lists@.map_values(|q: Vec<u32>| q@));
    r
}

/// A copy of the top of a tree.
fn copy_cap(cap: &Vec<[u32; 8]>) -> (r: Vec<[u32; 8]>)
    ensures
        r@ == cap@,
{
    let mut r: Vec<[u32; 8]> = Vec::new();
    let mut i: usize = 0;
    while i < cap.len()
        invariant
            i <= cap@.len(),
            r@ == cap@.take(i as int),
        decreases cap@.len() - i,
    {
        r.push(cap[i]);
        assert(r@ =~= cap@.take(i + 1));
        i = i + 1;
    }
    assert(cap@.take(i as int) =~= cap@);
    r
}

/// A copy of the tops of trees.
fn copy_caps(caps: &Vec<MerkleTreeCapVarLength>) -> (r: Vec<MerkleTreeCapVarLength>)
    ensures
        r@.map_values(|c: MerkleTreeCapVarLength| c.cap@) == caps@.map_values(
            |c: MerkleTreeCapVarLength| c.cap@,
        ),
{
    let mut r: Vec<MerkleTreeCapVarLength> = Vec::new();
    let mut i: usize = 0;
    while i < caps.len()
        invariant
            i <= caps@.len(),
            r@.len() == i,
            forall|j: int| 0 <= j < i ==> (#[trigger] r@[j]).cap@ == caps@[j].cap@,
        decreases caps@.len() - i,
    {
        r.push(MerkleTreeCapVarLength { cap: copy_cap(&caps[i].cap) });
        i = i + 1;
    }
    assert(r@.map_values(|c: MerkleTreeCapVarLength| c.cap@) =~= caps@.map_values(
        |c: MerkleTreeCapVarLength| c.cap@,
    ));
    r
}

/// Appends copies of proofs.
pub fn append_proofs(result: &mut Vec<Proof>, proofs: &Vec<Proof>)
    ensures
        models(final(result)@) == models(old(result)@) + models(proofs@),
{
    let ghost before = result@;
    let mut i: usize = 0;
    assert(models(before) + models(proofs@.take(0)) =~= models(before));
    while i < proofs.len()
        invariant
            i <= proofs@.len(),
            before == old(result)@,
            models(result@) == models(before) + models(proofs@.take(i as int)),
        decreases proofs@.len() - i,
    {
        let ghost so_far = result@;
        let copy = proofs[i].copy();
        result.push(copy);
        assert(models(result@) =~= models(so_far).push(copy@));
        assert(models(proofs@.take(i + 1)) =~= models(proofs@.take(i as int)).push(copy@));
        assert(models(result@) =~= models(before) + models(proofs@.take(i + 1)));
        i = i + 1;
    }
    assert(proofs@.take(i as int) =~= proofs@);
}

impl Proof {
    /// A copy of the proof.
    pub fn copy(&self) -> (r: Proof)
        ensures
            r@ == self@,
    {
        Proof {
            skeleton: copy_of(self.skeleton.as_slice()),
            skeleton_without_shuffle_ram: copy_of(self.skeleton_without_shuffle_ram.as_slice()),
            queries: copy_lists(&self.queries),
            setup_tree_caps: copy_caps(&self.setup_tree_caps),
        }
    }

    /// Appends all words of the proof.
    pub fn append_full(&self, result: &mut Vec<u32>, shuffle_ram: bool)
        ensures
            final(result)@ == old(result)@ + self@.full_words(shuffle_ram),
    {
        let ghost before = result@;
        if shuffle_ram {
            append_words(result, self.skeleton.as_slice());
        } else {
            append_words(result, self.skeleton_without_shuffle_ram.as_slice());
        }
        let ghost head = before + self@.skeleton_words(shuffle_ram);
        let ghost queries = self@.queries;
        let mut i: usize = 0;
        assert(queries.take(0).flatten() =~= Seq::<u32>::empty());
        assert(head + queries.take(0).flatten() =~= head);
        while i < self.queries.len()
            invariant
                i <= self.queries@.len(),
                queries == self.queries@.map_values(|q: Vec<u32>| q@),
                result@ == head + queries.take(i as int).flatten(),
            decreases self.queries@.len() - i,
        {
            append_words(result, self.queries[i].as_slice());
            proof {
                let part = queries.take(i as int);
                part.lemma_flatten_push(queries[i as int]);
                assert(queries.take(i + 1) =~= part.push(queries[i as int]));
                assert(head + part.flatten() + queries[i as int] =~= head + (part.flatten()
                    + queries[i as int]));
            }
            i = i + 1;
        }
        assert(queries.take(i as int) =~= queries);
        assert(head + queries.flatten() =~= before + self@.full_words(shuffle_ram));
    }

    /// All words of the proof.
    pub fn flatten_full_proof(&self, shuffle_ram: bool) -> (r: Vec<u32>)
        ensures
            r@ == self@.full_words(shuffle_ram),
    {
        let mut result: Vec<u32> = Vec::new();
        self.append_full(&mut result, shuffle_ram);
        assert(Seq::<u32>::empty() + self@.full_words(shuffle_ram) =~= self@.full_words(
            shuffle_ram,
        ));
        result
    }
}

/// The words of a proof begin with everything but the queries, for a circuit that initializes and
/// tears down memory or for one that does not; each query adds its words at the end.
pub proof fn law_words_of_a_proof(p: ProofModel, query: Seq<u32>, shuffle_ram: bool)
    ensures
        p.queries.len() == 0 && shuffle_ram ==> p.full_words(shuffle_ram) == p.skeleton,
        p.queries.len() == 0 && !shuffle_ram ==> p.full_words(shuffle_ram)
            == p.skeleton_without_shuffle_ram,
        (ProofModel { queries: p.queries.push(query), ..p }).full_words(shuffle_ram) == p.full_words(
            shuffle_ram,
        ) + query,
{
    p.queries.lemma_flatten_push(query);
    let longer = ProofModel { queries: p.queries.push(query), ..p };
    assert(longer.full_words(shuffle_ram) =~= p.full_words(shuffle_ram) + query);
    if p.queries.len() == 0 {
        assert(p.queries.flatten() =~= Seq::<u32>::empty());
        assert(p.full_words(shuffle_ram) =~= p.skeleton_words(shuffle_ram));
    }
}

/// What a proof consists of is what is in its fields, and lists of proofs are taken one by one.
pub proof fn law_models_are_faithful(proofs: Seq<Proof>, i: int, j: int)
    requires
        0 <= i < proofs.len(),
    ensures
        models(proofs).len() == proofs.len(),
        ({
            let p = proofs[i];
            let m = models(proofs)[i];
            &&& m == p@
            &&& m.skeleton == p.skeleton@
            &&& m.skeleton_without_shuffle_ram == p.skeleton_without_shuffle_ram@
            &&& m.queries.len() == p.queries@.len()
            &&& 0 <= j < p.queries@.len() ==> m.queries[j] == p.queries@[j]@
            &&& m.setup_tree_caps.len() == p.setup_tree_caps@.len()
            &&& 0 <= j < p.setup_tree_caps@.len() ==> m.setup_tree_caps[j]
                == p.setup_tree_caps@[j].cap@
        }),
{
}

} // verus!
