use crate::encoding::hex_chars;
use crate::error::StarkError;
use crate::fields::element::{be_bytes, FieldElement};
use rs_merkle::algorithms::Sha256;
use rs_merkle::Hasher;
use rs_merkle::MerkleProof;
use vstd::prelude::*;

verus! {

/// A committed `rs_merkle::MerkleTree` over SHA-256. The tree is opaque
/// here: what is known of it is the leaf digests it was built from.
#[verifier::external_body]
pub struct HashTree {
    inner: rs_merkle::MerkleTree<Sha256>,
}

/// The SHA-256 digest of `data`.
pub uninterp spec fn sha256_digest(data: Seq<u8>) -> Seq<u8>;

/// The leaf digests that a tree was built from.
pub uninterp spec fn tree_leaves(tree: HashTree) -> Seq<Seq<u8>>;

/// The top digest of the tree over `leaves`.
pub uninterp spec fn merkle_root(leaves: Seq<Seq<u8>>) -> Seq<u8>;

/// The sibling digests, from leaf to root, that open leaf `index` of the
/// tree over `leaves`.
pub uninterp spec fn merkle_path(leaves: Seq<Seq<u8>>, index: int) -> Seq<Seq<u8>>;

/// The root recomputed from the digest `leaf` at `index`, the sibling
/// digests `path` and the number of leaves `total`; none where the path
/// does not fit a tree of that size.
pub uninterp spec fn path_root(path: Seq<Seq<u8>>, index: int, leaf: Seq<u8>, total: int) -> Option<
    Seq<u8>,
>;

/// The byte sequences held by a list of digests.
pub open spec fn digests(v: Seq<Vec<u8>>) -> Seq<Seq<u8>> {
    Seq::new(v.len(), |i: int| v[i]@)
}

/// Every digest has 32 bytes.
pub open spec fn all_digest_sized(p: Seq<Seq<u8>>) -> bool {
    forall|i: int| 0 <= i < p.len() ==> (#[trigger] p[i]).len() == 32
}

/// The digests of a path one after another.
pub open spec fn flatten(p: Seq<Seq<u8>>) -> Seq<u8> {
    Seq::new(32 * p.len(), |i: int| p[i / 32][i % 32])
}

/// The successive 32-byte blocks of `bytes`.
pub open spec fn chunks(bytes: Seq<u8>) -> Seq<Seq<u8>> {
    Seq::new((bytes.len() / 32) as nat, |k: int| bytes.subrange(32 * k, 32 * k + 32))
}

/// Cutting a flattened path into blocks gives the path back.
pub proof fn lemma_chunks_of_flatten(p: Seq<Seq<u8>>)
    requires
        all_digest_sized(p),
    ensures
        flatten(p).len() == 32 * p.len(),
        chunks(flatten(p)) == p,
{
    let f = flatten(p);
    assert(chunks(f).len() == p.len());
    assert forall|k: int| 0 <= k < p.len() implies #[trigger] chunks(f)[k] == p[k] by {
        let c = chunks(f)[k];
        assert(p[k].len() == 32);
        assert forall|j: int| 0 <= j < 32 implies c[j] == p[k][j] by {
            assert(c[j] == f[32 * k + j]);
            assert((32 * k + j) / 32 == k);
            assert((32 * k + j) % 32 == j);
        }
        assert(c =~= p[k]);
    }
    assert(chunks(f) =~= p);
}

/// The digests of the canonical encodings of field elements: the leaves of
/// the tree that commits to them.
pub open spec fn leaf_digests<const MODULUS: u64>(data: Seq<FieldElement<MODULUS>>) -> Seq<
    Seq<u8>,
> {
    Seq::new(data.len(), |i: int| sha256_digest(be_bytes(data[i]@, 8)))
}

/// Whether the flattened `path` opens `value` at `index` of a tree with
/// `tree_size` leaves and the hexadecimal root `root`.
pub open spec fn validate_spec(
    root: Seq<char>,
    path: Seq<u8>,
    index: int,
    value: Seq<u8>,
    tree_size: int,
) -> bool {
    &&& path.len() % 32 == 0
    &&& 0 <= index < tree_size
    &&& match path_root(chunks(path), index, sha256_digest(value), tree_size) {
        Some(r) => hex_chars(r) == root,
        None => false,
    }
}

/// Calls `rs_merkle::Hasher::hash` of `rs_merkle::algorithms::Sha256`: the
/// SHA-256 digest of `data`, 32 bytes.
#[verifier::external_body]
fn sha256_hash(data: &[u8]) -> (r: Vec<u8>)
    ensures
        r@ == sha256_digest(data@),
        r@.len() == 32,
{
    Sha256::hash(data).to_vec()
}

/// Calls `rs_merkle::MerkleTree::from_leaves`: the committed tree whose
/// leaves are the given digests, in their order.
#[verifier::external_body]
fn tree_from_leaves(leaves: &Vec<Vec<u8>>) -> (t: HashTree)
    requires
        all_digest_sized(digests(leaves@)),
    ensures
        tree_leaves(t) == digests(leaves@),
{
    let hashes: Vec<[u8; 32]> = leaves.iter().map(
        |l| <[u8; 32]>::try_from(l.as_slice()).unwrap(),
    ).collect();
    HashTree { inner: rs_merkle::MerkleTree::<Sha256>::from_leaves(&hashes) }
}

/// Calls `rs_merkle::MerkleTree::root_hex`: the top digest in lowercase
/// hexadecimal; none for a tree without leaves.
#[verifier::external_body]
fn tree_root_hex(t: &HashTree) -> (r: Option<String>)
    ensures
        tree_leaves(*t).len() == 0 ==> r is None,
        tree_leaves(*t).len() > 0 ==> r is Some && r->Some_0@ == hex_chars(
            merkle_root(tree_leaves(*t)),
        ),
{
    t.inner.root_hex()
}

/// Calls `rs_merkle::MerkleTree::proof` for one leaf and reads the proof's
/// hashes: the sibling digests from leaf to root. Recomputing the root from
/// them and the leaf's digest, as `rs_merkle::MerkleProof::root` does, gives
/// the tree's root.
#[verifier::external_body]
fn tree_proof(t: &HashTree, index: usize) -> (r: Vec<Vec<u8>>)
    requires
        index < tree_leaves(*t).len(),
    ensures
        digests(r@) == merkle_path(tree_leaves(*t), index as int),
        all_digest_sized(digests(r@)),
        path_root(
            digests(r@),
            index as int,
            tree_leaves(*t)[index as int],
            tree_leaves(*t).len() as int,
        ) == Some(merkle_root(tree_leaves(*t))),
{
    t.inner.proof(&[index]).proof_hashes().iter().map(|h| h.to_vec()).collect()
}

/// Calls `rs_merkle::MerkleProof::root_hex` on a proof made of the digests
/// `path`: the root recomputed for one leaf, in lowercase hexadecimal; none
/// where rs_merkle reports an error.
#[verifier::external_body]
fn proof_root_hex(path: &Vec<Vec<u8>>, index: usize, leaf: &Vec<u8>, total: usize) -> (r: Option<
    String,
>)
    requires
        all_digest_sized(digests(path@)),
        leaf@.len() == 32,
        index < total,
    ensures
        match path_root(digests(path@), index as int, leaf@, total as int) {
            Some(root) => r is Some && r->Some_0@ == hex_chars(root),
            None => r is None,
        },
{
    let hashes: Vec<[u8; 32]> = path.iter().map(
        |h| <[u8; 32]>::try_from(h.as_slice()).unwrap(),
    ).collect();
    let leaf_hash = <[u8; 32]>::try_from(leaf.as_slice()).unwrap();
    MerkleProof::<Sha256>::new(hashes).root_hex(&[index], &[leaf_hash], total).ok()
}

/// A binary hash tree over the encodings of a sequence of field elements.
pub struct MerkleTree<const MODULUS: u64> {
    inner: HashTree,
    size: usize,
}

impl<const MODULUS: u64> MerkleTree<MODULUS> {
    /// The digests of the committed values, in their order.
    pub closed spec fn leaves(&self) -> Seq<Seq<u8>> {
        tree_leaves(self.inner)
    }

    /// The tree has at least one leaf and knows how many it has.
    pub closed spec fn wf(&self) -> bool {
        self.size == self.leaves().len() && self.size > 0
    }

    /// The root digest in lowercase hexadecimal.
    pub open spec fn root_spec(&self) -> Seq<char> {
        hex_chars(merkle_root(self.leaves()))
    }

    /// Commits to `data`: hashes the eight-byte big-endian encoding of each
    /// element and builds the tree over the digests. There is no tree over
    /// nothing.
    pub fn new(data: Vec<FieldElement<MODULUS>>) -> (r: Result<Self, StarkError>)
        ensures
            data@.len() == 0 ==> r is Err && r->Err_0 == StarkError::ShapeError,
            data@.len() > 0 ==> r is Ok && r->Ok_0.wf() && r->Ok_0.leaves() == leaf_digests(data@),
    {
        let n = data.len();
        if n == 0 {
            return Err(StarkError::ShapeError);
        }
        let mut hashed: Vec<Vec<u8>> = Vec::new();
        let mut i: usize = 0;
        while i < n
            invariant
                n == data@.len(),
                i <= n,
                hashed@.len() == i,
                forall|j: int|
                    0 <= j < i ==> (#[trigger] hashed@[j])@ == sha256_digest(
                        be_bytes(data@[j]@, 8),
                    ),
                forall|j: int| 0 <= j < i ==> (#[trigger] hashed@[j])@.len() == 32,
            decreases n - i,
        {
            let bytes = data[i].to_bytes();
            let digest = sha256_hash(bytes.as_slice());
            hashed.push(digest);
            i = i + 1;
        }
        assert(digests(hashed@) =~= leaf_digests(data@));
        let inner = tree_from_leaves(&hashed);
        Ok(MerkleTree { inner, size: n })
    }

    /// The number of committed values.
    pub fn len(&self) -> (n: usize)
        requires
            self.wf(),
        ensures
            n == self.leaves().len(),
            n > 0,
    {
        self.size
    }

    /// The root digest in lowercase hexadecimal.
    pub fn root(&self) -> (r: String)
        requires
            self.wf(),
        ensures
            r@ == self.root_spec(),
    {
        match tree_root_hex(&self.inner) {
            Some(s) => s,
            None => String::new(),
        }
    }

    /// The authentication path of the leaf at `index`: its sibling digests
    /// from leaf to root, 32 bytes each, one after another. The path opens
    /// every value whose digest is that leaf against this tree's root.
    pub fn get_authentication_path(&self, index: usize) -> (r: Result<Vec<u8>, StarkError>)
        requires
            self.wf(),
        ensures
            index >= self.leaves().len() ==> r is Err && r->Err_0 == StarkError::ShapeError,
            index < self.leaves().len() ==> r is Ok && r->Ok_0@ == flatten(
                merkle_path(self.leaves(), index as int),
            ),
            index < self.leaves().len() ==> forall|value: Seq<u8>|
                sha256_digest(value) == self.leaves()[index as int] ==> #[trigger] validate_spec(
                    self.root_spec(),
                    r->Ok_0@,
                    index as int,
                    value,
                    self.leaves().len() as int,
                ),
    {
        if index >= self.size {
            return Err(StarkError::ShapeError);
        }
        let path = tree_proof(&self.inner, index);
        let flat = flatten_path(&path);
        proof {
            lemma_chunks_of_flatten(digests(path@));
        }
        Ok(flat)
    }

    /// Whether `path` opens `value` at `index` of a tree with `tree_size`
    /// leaves whose root is `root`: hashes the value, recomputes the root
    /// along the path and compares. No tree is needed.
    pub fn validate(root: &String, path: &[u8], index: usize, value: &[u8], tree_size: usize) -> (r:
        bool)
        ensures
            r == validate_spec(root@, path@, index as int, value@, tree_size as int),
    {
        if path.len() % 32 != 0 || index >= tree_size {
            return false;
        }
        let siblings = split_path(path);
        let leaf = sha256_hash(value);
        match proof_root_hex(&siblings, index, &leaf, tree_size) {
            Some(computed) => computed == *root,
            None => false,
        }
    }
}

/// Writes the digests of a path one after another.
fn flatten_path(path: &Vec<Vec<u8>>) -> (r: Vec<u8>)
    requires
        all_digest_sized(digests(path@)),
    ensures
        r@ == flatten(digests(path@)),
{
    let mut out: Vec<u8> = Vec::new();
    let mut k: usize = 0;
    while k < path.len()
        invariant
            all_digest_sized(digests(path@)),
            k <= path@.len(),
            out@.len() == 32 * k,
            forall|i: int| 0 <= i < 32 * k ==> out@[i] == path@[i / 32]@[i % 32],
        decreases path@.len() - k,
    {
        let digest = &path[k];
        assert(digests(path@)[k as int].len() == 32);
        let mut j: usize = 0;
        while j < 32
            invariant
                digest@ == path@[k as int]@,
                digest@.len() == 32,
                k < path@.len(),
                j <= 32,
                out@.len() == 32 * k + j,
                forall|i: int| 0 <= i < 32 * k + j ==> out@[i] == path@[i / 32]@[i % 32],
            decreases 32 - j,
        {
            out.push(digest[j]);
            j = j + 1;
        }
        k = k + 1;
    }
    assert(out@ =~= flatten(digests(path@)));
    out
}

/// Cuts a flattened path into its 32-byte digests.
fn split_path(bytes: &[u8]) -> (r: Vec<Vec<u8>>)
    requires
        bytes@.len() % 32 == 0,
    ensures
        digests(r@) == chunks(bytes@),
        all_digest_sized(digests(r@)),
{
    let total = bytes.len();
    let count = total / 32;
    let mut out: Vec<Vec<u8>> = Vec::new();
    let mut k: usize = 0;
    while k < count
        invariant
            bytes@.len() % 32 == 0,
            total == bytes@.len(),
            count == bytes@.len() / 32,
            k <= count,
            out@.len() == k,
            forall|i: int| 0 <= i < k ==> (#[trigger] out@[i])@ == bytes@.subrange(32 * i, 32 * i + 32),
        decreases count - k,
    {
        let mut digest: Vec<u8> = Vec::new();
        let mut j: usize = 0;
        assert(32 * k + 32 <= bytes@.len());
        while j < 32
            invariant
                bytes@.len() % 32 == 0,
                count == bytes@.len() / 32,
                k < count,
                total == bytes@.len(),
                32 * k + 32 <= bytes@.len(),
                j <= 32,
                digest@ == bytes@.subrange(32 * k, 32 * k + j),
            decreases 32 - j,
        {
            digest.push(bytes[32 * k + j]);
            j = j + 1;
            assert(digest@ =~= bytes@.subrange(32 * k, 32 * k + j));
        }
        out.push(digest);
        k = k + 1;
    }
    assert(digests(out@) =~= chunks(bytes@));
    out
}

} // verus!
