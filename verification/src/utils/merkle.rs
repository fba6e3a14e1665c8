//! Merkle commitments over Blake3, and the byte form of field elements.
use vstd::prelude::*;
use crate::field::Field;

verus! {

/// A digest.
pub type Digest = [u8; 32];

/// What `blake3::hash` returns on the given bytes.
pub uninterp spec fn blake3_digest(data: Seq<u8>) -> Seq<u8>;

/// What `rs_merkle`'s `MerkleTree::proof(indices).to_bytes()` returns on the tree
/// over the given leaf digests.
pub uninterp spec fn merkle_path(leaves: Seq<Seq<u8>>, indices: Seq<usize>) -> Seq<u8>;

/// What `rs_merkle`'s `MerkleProof::root` computes from a proof, the opened
/// indices, their leaf digests and the number of leaves; `None` where it fails.
pub uninterp spec fn opened_root(
    proof: Seq<u8>,
    indices: Seq<usize>,
    leaves: Seq<Seq<u8>>,
    total: usize,
) -> Option<Seq<u8>>;

/// The leaf digests of a tree.
pub uninterp spec fn tree_leaves(t: HashTree) -> Seq<Seq<u8>>;

/// The digests of a list of leaves.
pub open spec fn leaf_digests(leaves: Seq<Seq<u8>>) -> Seq<Seq<u8>> {
    Seq::new(leaves.len(), |i: int| blake3_digest(leaves[i]))
}

/// The views of a list of digests.
pub open spec fn digest_views(d: Seq<Digest>) -> Seq<Seq<u8>> {
    Seq::new(d.len(), |i: int| d[i]@)
}

/// One level up: neighbours are hashed together, a last node without a neighbour
/// is passed on.
pub open spec fn parent_layer(s: Seq<Seq<u8>>) -> Seq<Seq<u8>> {
    Seq::new(
        (s.len() + 1) / 2,
        |i: int|
            if 2 * i + 1 < s.len() {
                blake3_digest(s[2 * i] + s[2 * i + 1])
            } else {
                s[2 * i]
            },
    )
}

/// The root of the tree over the given leaf digests.
pub open spec fn merkle_root(s: Seq<Seq<u8>>) -> Seq<u8>
    decreases s.len(),
{
    if s.len() <= 1 {
        s[0]
    } else {
        merkle_root(parent_layer(s))
    }
}

/// The indices increase strictly, there is at least one, and all lie below `n`.
pub open spec fn proper_indices(indices: Seq<usize>, n: int) -> bool {
    &&& indices.len() > 0
    &&& forall|i: int, j: int| 0 <= i < j < indices.len() ==> indices[i] < indices[j]
    &&& forall|i: int| 0 <= i < indices.len() ==> #[trigger] indices[i] < n
}

/// The entries of `s` at the given indices.
pub open spec fn select<T>(s: Seq<T>, indices: Seq<usize>) -> Seq<T> {
    Seq::new(indices.len(), |i: int| s[indices[i] as int])
}

/// The hash function of the tree.
#[derive(Debug, Clone)]
pub struct Blake32 {}

impl rs_merkle::Hasher for Blake32 {
    type Hash = Digest;

    fn hash(data: &[u8]) -> Digest {
        hash_leaf(data)
    }
}

/// Hashes one leaf's bytes with the tree's hash function. The contract names the
/// result of `blake3::hash`.
#[verifier::external_body]
pub fn hash_leaf(bytes: &[u8]) -> (r: Digest)
    ensures
        r@ == blake3_digest(bytes@),
{
    *blake3::hash(bytes).as_bytes()
}

/// A tree of `rs_merkle` with this module's hash function.
#[verifier::external_body]
pub struct HashTree {
    inner: rs_merkle::MerkleTree<Blake32>,
}

/// `rs_merkle::MerkleTree::from_leaves`: the tree over the given leaf digests.
#[verifier::external_body]
fn tree_from_leaves(leaf_hashes: &Vec<Digest>) -> (t: HashTree)
    ensures
        tree_leaves(t) == digest_views(leaf_hashes@),
{
    HashTree { inner: rs_merkle::MerkleTree::<Blake32>::from_leaves(leaf_hashes) }
}

/// `rs_merkle::MerkleTree::root`, which is `None` only for a tree without leaves:
/// the root obtained by hashing neighbours level by level.
#[verifier::external_body]
fn tree_root(t: &HashTree) -> (r: Digest)
    requires
        tree_leaves(*t).len() > 0,
    ensures
        r@ == merkle_root(tree_leaves(*t)),
{
    t.inner.root().unwrap()
}

/// `rs_merkle::MerkleTree::proof` and `MerkleProof::to_bytes`: whole digests, and
/// for strictly increasing indices of the tree a proof from which
/// `MerkleProof::root` recomputes the tree's root.
#[verifier::external_body]
fn tree_proof(t: &HashTree, indices: &[usize]) -> (r: Vec<u8>)
    ensures
        r@ == merkle_path(tree_leaves(*t), indices@),
        r@.len() % 32 == 0,
        proper_indices(indices@, tree_leaves(*t).len() as int) && tree_leaves(*t).len()
            <= usize::MAX ==> opened_root(
            r@,
            indices@,
            select(tree_leaves(*t), indices@),
            tree_leaves(*t).len() as usize,
        ) == Some(merkle_root(tree_leaves(*t))),
{
    t.inner.proof(indices).to_bytes()
}

/// `rs_merkle::MerkleProof::try_from` on bytes, which fails only on a partial
/// digest, then `MerkleProof::root`.
#[verifier::external_body]
fn proof_root(
    proof_bytes: Vec<u8>,
    indices: &Vec<usize>,
    leaf_hashes: &Vec<Digest>,
    total: usize,
) -> (r: Option<Digest>)
    requires
        proof_bytes@.len() % 32 == 0,
    ensures
        opened_root(proof_bytes@, indices@, digest_views(leaf_hashes@), total) == (match r {
            Some(d) => Some(d@),
            None => None,
        }),
{
    let proof = rs_merkle::MerkleProof::<Blake32>::try_from(proof_bytes).unwrap();
    match proof.root(indices, leaf_hashes, total) {
        Ok(root) => Some(root),
        Err(_) => None,
    }
}

/// The bytes of a list of field elements, one after the other.
pub open spec fn fields_bytes<F: Field>(s: Seq<F>) -> Seq<u8>
    decreases s.len(),
{
    if s.len() == 0 {
        Seq::empty()
    } else {
        fields_bytes(s.drop_last()) + s.last().bytes()
    }
}

/// Serialization of field elements.
pub struct Serialize;

impl Serialize {
    /// The bytes of `v`.
    pub fn serialize_fields<F: Field>(v: &[F]) -> (r: Vec<u8>)
        ensures
            r@ == fields_bytes(v@),
            r@.len() == v@.len() * F::byte_size(),
    {
        let mut out: Vec<u8> = Vec::new();
        Self::serialize_fields_into(v, &mut out);
        assert(out@ =~= fields_bytes(v@));
        proof {
            lemma_fields_bytes_len(v@);
        }
        out
    }

    /// Appends the bytes of `v` to `out`.
    pub fn serialize_fields_into<F: Field>(v: &[F], out: &mut Vec<u8>)
        ensures
            final(out)@ == old(out)@ + fields_bytes(v@),
    {
        let ghost start = out@;
        let mut i: usize = 0;
        assert(v@.take(0) =~= Seq::<F>::empty());
        assert(out@ =~= start + fields_bytes(v@.take(0)));
        while i < v.len()
            invariant
                i <= v.len(),
                out@ == start + fields_bytes(v@.take(i as int)),
            decreases v.len() - i,
        {
            let mut b = v[i].to_bytes();
            out.append(&mut b);
            proof {
                let t = v@.take(i + 1);
                assert(t.drop_last() =~= v@.take(i as int));
                assert(t.last() == v@[i as int]);
                assert(out@ =~= start + fields_bytes(t));
            }
            i += 1;
        }
        assert(v@.take(v@.len() as int) =~= v@);
    }
}

pub proof fn lemma_fields_bytes_len<F: Field>(s: Seq<F>)
    ensures
        fields_bytes(s).len() == s.len() * F::byte_size(),
    decreases s.len(),
{
    if s.len() > 0 {
        lemma_fields_bytes_len(s.drop_last());
        F::law_bytes(s.last());
        let (a, b) = (s.len(), F::byte_size());
        assert((a - 1) * b + b == a * b) by (nonlinear_arith);
    } else {
        assert(0 * F::byte_size() == 0);
    }
}

/// The prover's side of a Merkle commitment: the whole tree.
pub struct MerkleTreeProver {
    merkle_tree: HashTree,
    leave_num: usize,
}

/// The verifier's side: the root and the number of leaves.
#[derive(Debug, Clone)]
pub struct MerkleTreeVerifier {
    pub merkle_root: Digest,
    pub leave_number: usize,
}

impl MerkleTreeProver {
    /// The leaf digests of the tree.
    pub closed spec fn leaves(self) -> Seq<Seq<u8>> {
        tree_leaves(self.merkle_tree)
    }

    /// The leaf count is that of the tree.
    pub closed spec fn wf(self) -> bool {
        self.leave_num as nat == tree_leaves(self.merkle_tree).len()
    }

    /// The tree over the digests of the given leaves.
    pub fn new(leaf_values: &Vec<Vec<u8>>) -> (r: Self)
        ensures
            r.wf(),
            r.leaves() == leaf_digests(crate::views::nested(leaf_values@)),
    {
        let leaves = hash_all(leaf_values);
        Self::from_leaf_hashes(leaves)
    }

    /// The tree over leaf digests computed beforehand.
    pub fn from_leaf_hashes(leaf_hashes: Vec<Digest>) -> (r: Self)
        ensures
            r.wf(),
            r.leaves() == digest_views(leaf_hashes@),
    {
        let leave_num: usize = leaf_hashes.len();
        let merkle_tree = tree_from_leaves(&leaf_hashes);
        MerkleTreeProver { merkle_tree, leave_num }
    }

    /// The number of leaves.
    pub fn leave_num(&self) -> (r: usize)
        requires
            self.wf(),
        ensures
            r == self.leaves().len(),
    {
        self.leave_num
    }

    /// The root.
    pub fn commit(&self) -> (r: Digest)
        requires
            self.leaves().len() > 0,
        ensures
            r@ == merkle_root(self.leaves()),
    {
        tree_root(&self.merkle_tree)
    }

    /// A proof for the leaves at the given indices.
    pub fn open(&self, leaf_indices: &[usize]) -> (r: Vec<u8>)
        requires
            self.wf(),
        ensures
            r@ == merkle_path(self.leaves(), leaf_indices@),
            r@.len() % 32 == 0,
            proper_indices(leaf_indices@, self.leaves().len() as int) ==> opened_root(
                r@,
                leaf_indices@,
                select(self.leaves(), leaf_indices@),
                self.leaves().len() as usize,
            ) == Some(merkle_root(self.leaves())),
    {
        tree_proof(&self.merkle_tree, leaf_indices)
    }
}

/// The digest of every leaf.
fn hash_all(leaves: &Vec<Vec<u8>>) -> (r: Vec<Digest>)
    ensures
        digest_views(r@) == leaf_digests(crate::views::nested(leaves@)),
{
    let mut r: Vec<Digest> = Vec::new();
    let ghost vs = crate::views::nested(leaves@);
    let mut i: usize = 0;
    while i < leaves.len()
        invariant
            i <= leaves.len(),
            r@.len() == i,
            vs == crate::views::nested(leaves@),
            forall|k: int| 0 <= k < i ==> (#[trigger] r@[k])@ == blake3_digest(vs[k]),
        decreases leaves.len() - i,
    {
        r.push(hash_leaf(leaves[i].as_slice()));
        i += 1;
    }
    assert(digest_views(r@) =~= leaf_digests(vs));
    r
}

/// Byte-wise comparison of digests.
fn same_digest(a: &Digest, b: &Digest) -> (r: bool)
    ensures
        r == (a@ == b@),
{
    let mut i: usize = 0;
    while i < 32
        invariant
            i <= 32,
            forall|k: int| 0 <= k < i ==> a@[k] == b@[k],
        decreases 32 - i,
    {
        if a[i] != b[i] {
            assert(a@[i as int] != b@[i as int]);
            return false;
        }
        i += 1;
    }
    assert(a@ =~= b@);
    true
}

impl MerkleTreeVerifier {
    /// A proof opens the given leaves at the given indices under this root.
    pub open spec fn opens(
        self,
        proof_bytes: Seq<u8>,
        indices: Seq<usize>,
        leaves: Seq<Seq<u8>>,
    ) -> bool {
        opened_root(proof_bytes, indices, leaf_digests(leaves), self.leave_number) == Some(
            self.merkle_root@,
        )
    }

    pub fn new(leave_number: usize, merkle_root: &Digest) -> (r: Self)
        ensures
            r.leave_number == leave_number,
            r.merkle_root == *merkle_root,
    {
        MerkleTreeVerifier { leave_number, merkle_root: *merkle_root }
    }

    /// Checks that the leaves stand at the given indices of the committed tree.
    pub fn verify(
        &self,
        proof_bytes: Vec<u8>,
        indices: &Vec<usize>,
        leaves: &Vec<Vec<u8>>,
    ) -> (r: bool)
        requires
            proof_bytes@.len() % 32 == 0,
        ensures
            r == self.opens(proof_bytes@, indices@, crate::views::nested(leaves@)),
    {
        let leaves_to_prove = hash_all(leaves);
        self.verify_digests(proof_bytes, indices, &leaves_to_prove)
    }

    /// Checks a proof against leaf digests.
    pub fn verify_digests(
        &self,
        proof_bytes: Vec<u8>,
        indices: &Vec<usize>,
        digests: &Vec<Digest>,
    ) -> (r: bool)
        requires
            proof_bytes@.len() % 32 == 0,
        ensures
            r == (opened_root(proof_bytes@, indices@, digest_views(digests@), self.leave_number)
                == Some(self.merkle_root@)),
    {
        match proof_root(proof_bytes, indices, digests, self.leave_number) {
            Some(d) => same_digest(&d, &self.merkle_root),
            None => false,
        }
    }

    /// The root that a proof yields for one leaf. The proof must hold enough
    /// digests.
    pub fn get_root(
        proof_bytes: Vec<u8>,
        index: usize,
        leaf: Vec<u8>,
        leave_number: usize,
    ) -> (r: Digest)
        requires
            proof_bytes@.len() % 32 == 0,
            opened_root(
                proof_bytes@,
                seq![index],
                seq![blake3_digest(leaf@)],
                leave_number,
            ) is Some,
        ensures
            opened_root(
                proof_bytes@,
                seq![index],
                seq![blake3_digest(leaf@)],
                leave_number,
            ) == Some(r@),
    {
        let indices: Vec<usize> = vec![index];
        let hashes: Vec<Digest> = vec![hash_leaf(leaf.as_slice())];
        assert(digest_views(hashes@) =~= seq![blake3_digest(leaf@)]);
        assert(indices@ =~= seq![index]);
        match proof_root(proof_bytes, &indices, &hashes, leave_number) {
            Some(d) => d,
            None => [0u8; 32],
        }
    }

    /// The root that a proof yields for one leaf, or `None` if the proof is cut
    /// inside a digest or holds too few.
    pub fn root_of(
        proof_bytes: Vec<u8>,
        index: usize,
        leaf: Vec<u8>,
        leave_number: usize,
    ) -> (r: Option<Digest>)
        ensures
            r is Some <==> proof_bytes@.len() % 32 == 0 && opened_root(
                proof_bytes@,
                seq![index],
                seq![blake3_digest(leaf@)],
                leave_number,
            ) is Some,
            r is Some ==> opened_root(
                proof_bytes@,
                seq![index],
                seq![blake3_digest(leaf@)],
                leave_number,
            ) == Some(r->0@),
    {
        if proof_bytes.len() % 32 != 0 {
            return None;
        }
        let indices: Vec<usize> = vec![index];
        let hashes: Vec<Digest> = vec![hash_leaf(leaf.as_slice())];
        assert(digest_views(hashes@) =~= seq![blake3_digest(leaf@)]);
        assert(indices@ =~= seq![index]);
        if proof_root(copy_bytes(&proof_bytes), &indices, &hashes, leave_number).is_none() {
            return None;
        }
        Some(Self::get_root(proof_bytes, index, leaf, leave_number))
    }
}

/// A copy of a byte vector.
pub fn copy_bytes(v: &Vec<u8>) -> (r: Vec<u8>)
    ensures
        r@ == v@,
{
    let mut r: Vec<u8> = Vec::new();
    let mut i: usize = 0;
    while i < v.len()
        invariant
            i <= v.len(),
            r@ == v@.take(i as int),
        decreases v.len() - i,
    {
        r.push(v[i]);
        assert(v@.take(i + 1) =~= v@.take(i as int).push(v@[i as int]));
        i += 1;
    }
    assert(v@.take(v@.len() as int) =~= v@);
    r
}

/// What a tree opens, its root accepts: for strictly increasing indices of the
/// tree over `leaves`, a proof with the property that `open` ensures is accepted
/// for those leaves under the committed root.
pub proof fn law_open_accepted(leaves: Seq<Seq<u8>>, indices: Seq<usize>, path: Seq<u8>, v: MerkleTreeVerifier)
    requires
        proper_indices(indices, leaves.len() as int),
        v.leave_number as nat == leaves.len(),
        v.merkle_root@ == merkle_root(leaf_digests(leaves)),
        opened_root(path, indices, select(leaf_digests(leaves), indices), v.leave_number) == Some(
            merkle_root(leaf_digests(leaves)),
        ),
    ensures
        v.opens(path, indices, select(leaves, indices)),
{
    assert(leaf_digests(select(leaves, indices)) =~= select(leaf_digests(leaves), indices));
}

/// One proof opens the same leaves under one root only, and under that root only for the
/// leaves whose digests lead to it: leaves with other digests need another way to the same
/// root.
pub proof fn law_one_root(
    v: MerkleTreeVerifier,
    u: MerkleTreeVerifier,
    path: Seq<u8>,
    indices: Seq<usize>,
    leaves: Seq<Seq<u8>>,
    others: Seq<Seq<u8>>,
)
    requires
        v.leave_number == u.leave_number,
        v.opens(path, indices, leaves),
    ensures
        u.opens(path, indices, leaves) ==> v.merkle_root@ == u.merkle_root@,
        v.opens(path, indices, others) <==> opened_root(
            path,
            indices,
            Seq::new(others.len(), |i: int| blake3_digest(others[i])),
            v.leave_number,
        ) == opened_root(
            path,
            indices,
            Seq::new(leaves.len(), |i: int| blake3_digest(leaves[i])),
            v.leave_number,
        ),
{
    assert(leaf_digests(others) =~= Seq::new(others.len(), |i: int| blake3_digest(others[i])));
    assert(leaf_digests(leaves) =~= Seq::new(leaves.len(), |i: int| blake3_digest(leaves[i])));
}

} // verus!
