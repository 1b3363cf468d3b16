use crate::channel::channel::{after_receive_int, after_send, drawn_int, Channel, ChannelView};
use crate::encoding::hex_chars;
use crate::error::StarkError;
use crate::fields::element::{be_bytes, FieldElement};
use crate::fields::modular::field_pow;
use crate::merkle::{flatten, leaf_digests, merkle_path, merkle_root, sha256_digest, MerkleTree};
use crate::polynomial::model::{coeff, poly_eval, poly_fold, reduced};
use crate::polynomial::ops::{values, Polynomial};
use vstd::arithmetic::div_mod::*;
use vstd::prelude::*;
use vstd::utf8::encode_utf8;

verus! {

/// Everything a run of the commit phase produced.
pub struct FRIProof<const MODULUS: u64> {
    /// The evaluations of every layer's polynomial on that layer's domain.
    pub fri_layers: Vec<Vec<FieldElement<MODULUS>>>,
    /// The commitment to every layer.
    pub fri_merkles: Vec<MerkleTree<MODULUS>>,
    /// The last polynomial: a constant.
    pub final_poly: Polynomial<MODULUS>,
}

/// The squares of the first half of the domain `d`.
pub open spec fn next_domain(d: Seq<int>, m: int) -> Seq<int> {
    Seq::new((d.len() / 2) as nat, |i: int| field_pow(d[i], 2, m))
}

/// The values of the polynomial `p` at the points of `d`.
pub open spec fn evaluations(p: Seq<int>, d: Seq<int>, m: int) -> Seq<int> {
    Seq::new(d.len(), |i: int| poly_eval(p, d[i]) % m)
}

/// The digests of the encodings of the residues `vals`.
pub open spec fn value_digests(vals: Seq<int>) -> Seq<Seq<u8>> {
    Seq::new(vals.len(), |i: int| sha256_digest(be_bytes(vals[i], 8)))
}

/// The message that commits to a layer: the bytes of its Merkle root in
/// hexadecimal.
pub open spec fn root_message(evals: Seq<int>) -> Seq<u8> {
    encode_utf8(hex_chars(merkle_root(value_digests(evals))))
}

/// Where the commit phase stands after a layer: its polynomial, its domain,
/// and the channel after the layer's root was sent.
pub struct CommitState {
    pub poly: Seq<int>,
    pub domain: Seq<int>,
    pub channel: ChannelView,
}

/// The commit phase after the first layer.
pub open spec fn commit_start(p: Seq<int>, d: Seq<int>, c: ChannelView, m: int) -> CommitState {
    CommitState { poly: p, domain: d, channel: after_send(c, root_message(evaluations(p, d, m))) }
}

/// One round: a coefficient is drawn, the polynomial folded with it, the
/// domain squared and halved, and the root of the new layer sent.
pub open spec fn commit_round(s: CommitState, m: int) -> CommitState {
    let beta = drawn_int(s.channel, 0, m - 1);
    let poly = poly_fold(s.poly, beta, m);
    let domain = next_domain(s.domain, m);
    CommitState {
        poly,
        domain,
        channel: after_send(
            after_receive_int(s.channel, 0, m - 1, true),
            root_message(evaluations(poly, domain, m)),
        ),
    }
}

/// The commit phase after `k` rounds.
pub open spec fn commit_state(p: Seq<int>, d: Seq<int>, c: ChannelView, m: int, k: nat) -> CommitState
    decreases k,
{
    if k == 0 {
        commit_start(p, d, c, m)
    } else {
        commit_round(commit_state(p, d, c, m, (k - 1) as nat), m)
    }
}

/// Each of the first `k` layers called for another round, and its domain
/// could be halved.
pub open spec fn commit_reaches(p: Seq<int>, d: Seq<int>, c: ChannelView, m: int, k: nat) -> bool {
    forall|j: nat|
        j < k ==> (#[trigger] commit_state(p, d, c, m, j)).poly.len() > 1 && commit_state(
            p,
            d,
            c,
            m,
            j,
        ).domain.len() >= 2
}

/// The commit phase comes to an end after `k` rounds: the polynomial is a
/// constant by then and no domain ran out on the way.
pub open spec fn commit_ends_at(p: Seq<int>, d: Seq<int>, c: ChannelView, m: int, k: nat) -> bool {
    &&& d.len() > 0
    &&& commit_reaches(p, d, c, m, k)
    &&& commit_state(p, d, c, m, k).poly.len() <= 1
}

/// The layers are not empty, hold residues, and each tree commits to its
/// layer.
pub open spec fn layers_wf<const MODULUS: u64>(
    layers: Seq<Vec<FieldElement<MODULUS>>>,
    merkles: Seq<MerkleTree<MODULUS>>,
) -> bool {
    &&& layers.len() == merkles.len()
    &&& forall|k: int|
        0 <= k < layers.len() ==> {
            &&& (#[trigger] merkles[k]).wf()
            &&& merkles[k].leaves() == leaf_digests(layers[k]@)
            &&& layers[k]@.len() > 0
            &&& reduced(values(layers[k]@), MODULUS as int)
        }
}

/// The digests of a layer are those of its values.
pub proof fn lemma_leaf_digests_of_values<const MODULUS: u64>(layer: Seq<FieldElement<MODULUS>>)
    ensures
        leaf_digests(layer) == value_digests(values(layer)),
{
    assert(leaf_digests(layer) =~= value_digests(values(layer)));
}

/// A copy of a list of field elements.
fn copy_elements<const MODULUS: u64>(v: &Vec<FieldElement<MODULUS>>) -> (r: Vec<
    FieldElement<MODULUS>,
>)
    ensures
        r@ == v@,
{
    let mut out: Vec<FieldElement<MODULUS>> = Vec::new();
    let mut i: usize = 0;
    while i < v.len()
        invariant
            i <= v@.len(),
            out@ == v@.take(i as int),
        decreases v@.len() - i,
    {
        out.push(v[i]);
        i = i + 1;
        assert(out@ =~= v@.take(i as int));
    }
    assert(out@ =~= v@);
    out
}

/// The values of `poly` at the points of `domain`.
pub fn evaluate_on_domain<const MODULUS: u64>(
    poly: &Polynomial<MODULUS>,
    domain: &[FieldElement<MODULUS>],
) -> (r: Vec<FieldElement<MODULUS>>)
    requires
        poly.wf(),
        reduced(values(domain@), MODULUS as int),
    ensures
        values(r@) == evaluations(poly@, values(domain@), MODULUS as int),
        reduced(values(r@), MODULUS as int),
{
    let mut out: Vec<FieldElement<MODULUS>> = Vec::new();
    let mut i: usize = 0;
    while i < domain.len()
        invariant
            poly.wf(),
            reduced(values(domain@), MODULUS as int),
            i <= domain@.len(),
            out@.len() == i,
            forall|j: int|
                0 <= j < i ==> (#[trigger] out@[j])@ == poly_eval(poly@, values(domain@)[j]) % (
                MODULUS as int),
            forall|j: int| 0 <= j < i ==> (#[trigger] out@[j]).wf(),
        decreases domain@.len() - i,
    {
        let x = domain[i];
        assert(x@ == values(domain@)[i as int]);
        out.push(poly.evaluate(x));
        i = i + 1;
    }
    assert(values(out@) =~= evaluations(poly@, values(domain@), MODULUS as int));
    assert(reduced(values(out@), MODULUS as int)) by {
        assert forall|j: int| 0 <= j < out@.len() implies 0 <= #[trigger] values(out@)[j]
            < MODULUS by {
            assert(out@[j].wf());
        }
    }
    out
}

/// The next, half as long domain: the squares of the first half of
/// `domain`.
pub fn next_fri_domain<const MODULUS: u64>(domain: &[FieldElement<MODULUS>]) -> (r: Vec<
    FieldElement<MODULUS>,
>)
    requires
        reduced(values(domain@), MODULUS as int),
    ensures
        values(r@) == next_domain(values(domain@), MODULUS as int),
        reduced(values(r@), MODULUS as int),
{
    let half = domain.len() / 2;
    let mut out: Vec<FieldElement<MODULUS>> = Vec::new();
    let mut i: usize = 0;
    while i < half
        invariant
            reduced(values(domain@), MODULUS as int),
            half == domain@.len() / 2,
            i <= half,
            out@.len() == i,
            forall|j: int|
                0 <= j < i ==> (#[trigger] out@[j])@ == field_pow(
                    values(domain@)[j],
                    2,
                    MODULUS as int,
                ),
            forall|j: int| 0 <= j < i ==> (#[trigger] out@[j]).wf(),
        decreases half - i,
    {
        let x = domain[i];
        assert(x@ == values(domain@)[i as int]);
        out.push(x.pow(2));
        i = i + 1;
    }
    assert(values(out@) =~= next_domain(values(domain@), MODULUS as int));
    assert(reduced(values(out@), MODULUS as int)) by {
        assert forall|j: int| 0 <= j < out@.len() implies 0 <= #[trigger] values(out@)[j]
            < MODULUS by {
            assert(out@[j].wf());
        }
    }
    out
}

/// The next polynomial: `poly` folded with `beta`.
pub fn next_fri_polynomial<const MODULUS: u64>(
    poly: &Polynomial<MODULUS>,
    beta: FieldElement<MODULUS>,
) -> (r: Polynomial<MODULUS>)
    requires
        poly.wf(),
        beta.wf(),
    ensures
        r@ == poly_fold(poly@, beta@, MODULUS as int),
        r@.len() <= (poly@.len() + 1) / 2,
        r.wf(),
{
    poly.fold(beta)
}

/// One folding step: the next polynomial, the next domain, and the values
/// of the one on the other.
pub fn next_fri_layer<const MODULUS: u64>(
    current_poly: &Polynomial<MODULUS>,
    current_domain: &[FieldElement<MODULUS>],
    beta: FieldElement<MODULUS>,
) -> (r: (Polynomial<MODULUS>, Vec<FieldElement<MODULUS>>, Vec<FieldElement<MODULUS>>))
    requires
        current_poly.wf(),
        beta.wf(),
        reduced(values(current_domain@), MODULUS as int),
    ensures
        r.0@ == poly_fold(current_poly@, beta@, MODULUS as int),
        r.0@.len() <= (current_poly@.len() + 1) / 2,
        r.0.wf(),
        values(r.1@) == next_domain(values(current_domain@), MODULUS as int),
        reduced(values(r.1@), MODULUS as int),
        values(r.2@) == evaluations(r.0@, values(r.1@), MODULUS as int),
        reduced(values(r.2@), MODULUS as int),
{
    let folded_poly = next_fri_polynomial(current_poly, beta);
    let folded_domain = next_fri_domain(current_domain);
    let folded_evals = evaluate_on_domain(&folded_poly, folded_domain.as_slice());
    (folded_poly, folded_domain, folded_evals)
}

/// A round that fails, or does not happen, rules out that the phase ends
/// anywhere.
proof fn lemma_commit_cannot_end(p: Seq<int>, d: Seq<int>, c: ChannelView, m: int, k: nat, n: nat)
    requires
        commit_reaches(p, d, c, m, k),
        commit_state(p, d, c, m, k).poly.len() > 1,
        commit_state(p, d, c, m, k).domain.len() < 2,
    ensures
        !commit_ends_at(p, d, c, m, n),
{
    if n > k {
        if commit_reaches(p, d, c, m, n) {
            assert(commit_state(p, d, c, m, k).domain.len() >= 2);
        }
    } else if n < k {
        assert(commit_state(p, d, c, m, n).poly.len() > 1);
    }
}

/// The phase ends after one number of rounds only.
pub proof fn law_commit_end_unique(p: Seq<int>, d: Seq<int>, c: ChannelView, m: int, k: nat, n: nat)
    requires
        commit_ends_at(p, d, c, m, k),
        commit_ends_at(p, d, c, m, n),
    ensures
        k == n,
{
    if k < n {
        assert(commit_state(p, d, c, m, k).poly.len() > 1);
    }
    if n < k {
        assert(commit_state(p, d, c, m, n).poly.len() > 1);
    }
}

/// The commit phase. Evaluates the polynomial on the domain, commits to
/// the values and sends the root; then, as long as the polynomial is not a
/// constant, draws a coefficient from the channel, folds the polynomial
/// with it, halves the domain and commits again. At the end the constant is
/// sent. A domain that runs out before the polynomial is a constant is a
/// shape error.
pub fn fri_commit<const MODULUS: u64>(
    poly: Polynomial<MODULUS>,
    domain: Vec<FieldElement<MODULUS>>,
    channel: &mut Channel<MODULUS>,
) -> (r: Result<FRIProof<MODULUS>, StarkError>)
    requires
        MODULUS > 0,
        poly.wf(),
        reduced(values(domain@), MODULUS as int),
        old(channel).wf(),
    ensures
        final(channel).wf(),
        match r {
            Ok(proof) => {
                let k = (proof.fri_layers@.len() - 1) as nat;
                let end = commit_state(
                    poly@,
                    values(domain@),
                    old(channel)@,
                    MODULUS as int,
                    k,
                );
                &&& proof.fri_layers@.len() >= 1
                &&& commit_ends_at(poly@, values(domain@), old(channel)@, MODULUS as int, k)
                &&& layers_wf(proof.fri_layers@, proof.fri_merkles@)
                &&& forall|j: int|
                    0 <= j <= k ==> values(#[trigger] proof.fri_layers@[j]@) == evaluations(
                        commit_state(
                            poly@,
                            values(domain@),
                            old(channel)@,
                            MODULUS as int,
                            j as nat,
                        ).poly,
                        commit_state(
                            poly@,
                            values(domain@),
                            old(channel)@,
                            MODULUS as int,
                            j as nat,
                        ).domain,
                        MODULUS as int,
                    )
                &&& proof.final_poly@ == end.poly
                &&& proof.final_poly.wf()
                &&& final(channel)@ == after_send(end.channel, be_bytes(coeff(end.poly, 0), 8))
            },
            Err(e) => {
                &&& e == StarkError::ShapeError
                &&& forall|n: nat|
                    !#[trigger] commit_ends_at(
                        poly@,
                        values(domain@),
                        old(channel)@,
                        MODULUS as int,
                        n,
                    )
                &&& domain@.len() == 0 ==> final(channel)@ == old(channel)@
                &&& domain@.len() > 0 ==> exists|k: nat|
                    {
                        &&& commit_reaches(poly@, values(domain@), old(channel)@, MODULUS as int, k)
                        &&& (#[trigger] commit_state(
                            poly@,
                            values(domain@),
                            old(channel)@,
                            MODULUS as int,
                            k,
                        )).domain.len() < 2
                        &&& commit_state(
                            poly@,
                            values(domain@),
                            old(channel)@,
                            MODULUS as int,
                            k,
                        ).poly.len() > 1
                        &&& final(channel)@ == commit_state(
                            poly@,
                            values(domain@),
                            old(channel)@,
                            MODULUS as int,
                            k,
                        ).channel
                    }
            },
        },
{
    let ghost p0 = poly@;
    let ghost d0 = values(domain@);
    let ghost c0 = channel@;
    let ghost m = MODULUS as int;
    let mut cur_poly = poly.clone();
    let mut cur_domain = copy_elements(&domain);
    if domain.len() == 0 {
        return Err(StarkError::ShapeError);
    }
    let evals = evaluate_on_domain(&cur_poly, cur_domain.as_slice());
    assert(evals@.len() == values(evals@).len());
    let merkle = match MerkleTree::new(copy_elements(&evals)) {
        Ok(t) => t,
        Err(e) => {
            proof {
                assert(false);
            }
            return Err(StarkError::ShapeError);
        },
    };
    let root = merkle.root();
    proof {
        lemma_leaf_digests_of_values(evals@);
    }
    channel.send(root.as_str().as_bytes());
    let mut fri_layers: Vec<Vec<FieldElement<MODULUS>>> = Vec::new();
    let mut fri_merkles: Vec<MerkleTree<MODULUS>> = Vec::new();
    fri_layers.push(evals);
    fri_merkles.push(merkle);
    let ghost mut k: nat = 0;
    while cur_poly.degree >= 1
        invariant
            MODULUS > 0,
            m == MODULUS,
            p0 == poly@,
            d0 == values(domain@),
            c0 == old(channel)@,
            d0.len() > 0,
            cur_poly.wf(),
            reduced(values(cur_domain@), m),
            channel.wf(),
            fri_layers@.len() == k + 1,
            layers_wf(fri_layers@, fri_merkles@),
            commit_reaches(p0, d0, c0, m, k),
            cur_poly@ == commit_state(p0, d0, c0, m, k).poly,
            values(cur_domain@) == commit_state(p0, d0, c0, m, k).domain,
            channel@ == commit_state(p0, d0, c0, m, k).channel,
            forall|j: int|
                0 <= j <= k ==> values(#[trigger] fri_layers@[j]@) == evaluations(
                    commit_state(p0, d0, c0, m, j as nat).poly,
                    commit_state(p0, d0, c0, m, j as nat).domain,
                    m,
                ),
        decreases cur_poly@.len(),
    {
        if cur_domain.len() < 2 {
            proof {
                assert forall|n: nat| !#[trigger] commit_ends_at(p0, d0, c0, m, n) by {
                    lemma_commit_cannot_end(p0, d0, c0, m, k, n);
                }
                assert(commit_state(p0, d0, c0, m, k).domain.len() < 2);
            }
            return Err(StarkError::ShapeError);
        }
        let beta = channel.receive_random_field_element();
        let (new_poly, new_domain, new_evals) = next_fri_layer(&cur_poly, cur_domain.as_slice(), beta);
        assert(new_evals@.len() == values(new_evals@).len());
        assert(new_domain@.len() == values(new_domain@).len());
        let new_merkle = match MerkleTree::new(copy_elements(&new_evals)) {
            Ok(t) => t,
            Err(e) => {
                proof {
                    assert(false);
                }
                return Err(StarkError::ShapeError);
            },
        };
        let new_root = new_merkle.root();
        proof {
            lemma_leaf_digests_of_values(new_evals@);
        }
        channel.send(new_root.as_str().as_bytes());
        fri_layers.push(new_evals);
        fri_merkles.push(new_merkle);
        proof {
            let next = commit_state(p0, d0, c0, m, k + 1);
            assert(next == commit_round(commit_state(p0, d0, c0, m, k), m));
            assert(commit_reaches(p0, d0, c0, m, k + 1)) by {
                assert forall|j: nat| j < k + 1 implies (#[trigger] commit_state(
                    p0,
                    d0,
                    c0,
                    m,
                    j,
                )).poly.len() > 1 && commit_state(p0, d0, c0, m, j).domain.len() >= 2 by {
                    if j == k {
                    }
                }
            }
            k = k + 1;
        }
        cur_poly = new_poly;
        cur_domain = new_domain;
    }
    let final_value = if cur_poly.is_zero() {
        FieldElement::zero()
    } else {
        cur_poly.coefficients[0]
    };
    assert(final_value@ == coeff(cur_poly@, 0));
    let bytes = final_value.to_bytes();
    channel.send(bytes.as_slice());
    Ok(FRIProof { fri_layers, fri_merkles, final_poly: cur_poly })
}

/// The index of the opened value in a layer of `len` values.
pub open spec fn layer_index(index: int, len: int) -> int {
    index % len
}

/// The index of the sibling: half a layer further, cyclically.
pub open spec fn sibling_index(index: int, len: int) -> int {
    (index % len + len / 2) % len
}

/// The channel after the layers from `k` on were opened at `index`: for
/// every layer the value, its path, the sibling's value and its path; a
/// layer of one value ends the openings.
pub open spec fn after_decommit(
    c: ChannelView,
    index: int,
    layers: Seq<Seq<int>>,
    leaves: Seq<Seq<Seq<u8>>>,
    k: int,
) -> ChannelView
    decreases layers.len() - k,
{
    if k < 0 || k >= layers.len() || layers[k].len() == 1 {
        c
    } else {
        let len = layers[k].len() as int;
        let i = layer_index(index, len);
        let s = sibling_index(index, len);
        let c1 = after_send(c, be_bytes(layers[k][i], 8));
        let c2 = after_send(c1, flatten(merkle_path(leaves[k], i)));
        let c3 = after_send(c2, be_bytes(layers[k][s], 8));
        let c4 = after_send(c3, flatten(merkle_path(leaves[k], s)));
        after_decommit(c4, index, layers, leaves, k + 1)
    }
}

/// The values of every layer.
pub open spec fn layer_values<const MODULUS: u64>(layers: Seq<Vec<FieldElement<MODULUS>>>) -> Seq<
    Seq<int>,
> {
    Seq::new(layers.len(), |k: int| values(layers[k]@))
}

/// The leaf digests of every layer.
pub open spec fn layer_leaves<const MODULUS: u64>(layers: Seq<Vec<FieldElement<MODULUS>>>) -> Seq<
    Seq<Seq<u8>>,
> {
    Seq::new(layers.len(), |k: int| leaf_digests(layers[k]@))
}

/// The position half a layer after `idx`, cyclically.
pub fn sibling_position(idx: usize, length: usize) -> (r: usize)
    requires
        idx < length,
    ensures
        r == (idx + length / 2) % (length as int),
        r < length,
{
    let half = length / 2;
    if idx < length - half {
        proof {
            lemma_small_mod((idx + half) as nat, length as nat);
        }
        idx + half
    } else {
        proof {
            lemma_mod_add_multiples_vanish(idx + half - length, length as int);
            lemma_small_mod((idx + half - length) as nat, length as nat);
        }
        idx - (length - half)
    }
}

/// Opens every layer at the query `index`: sends the value at the index
/// and its authentication path, then the sibling's value and path. The
/// layer that holds a single value ends the openings.
pub fn decommit_fri_layers<const MODULUS: u64>(
    index: usize,
    fri_layers: &[Vec<FieldElement<MODULUS>>],
    fri_merkles: &[MerkleTree<MODULUS>],
    channel: &mut Channel<MODULUS>,
)
    requires
        layers_wf(fri_layers@, fri_merkles@),
    ensures
        final(channel)@ == after_decommit(
            old(channel)@,
            index as int,
            layer_values(fri_layers@),
            layer_leaves(fri_layers@),
            0,
        ),
        old(channel).wf() ==> final(channel).wf(),
{
    let ghost vals = layer_values(fri_layers@);
    let ghost leaves = layer_leaves(fri_layers@);
    let ghost c0 = channel@;
    let n = fri_layers.len();
    let mut k: usize = 0;
    while k < n
        invariant
            layers_wf(fri_layers@, fri_merkles@),
            vals == layer_values(fri_layers@),
            leaves == layer_leaves(fri_layers@),
            n == fri_layers@.len(),
            k <= n,
            old(channel).wf() ==> channel.wf(),
            after_decommit(c0, index as int, vals, leaves, 0) == after_decommit(
                channel@,
                index as int,
                vals,
                leaves,
                k as int,
            ),
        ensures
            channel@ == after_decommit(c0, index as int, vals, leaves, 0),
            old(channel).wf() ==> channel.wf(),
        decreases n - k,
    {
        let layer_evals = &fri_layers[k];
        let merkle_tree = &fri_merkles[k];
        let length = layer_evals.len();
        assert(vals[k as int] == values(layer_evals@));
        assert(leaves[k as int] == merkle_tree.leaves());
        if length == 1 {
            break ;
        }
        let idx = index % length;
        let sibling_idx = sibling_position(idx, length);
        let value = layer_evals[idx];
        assert(value@ == vals[k as int][idx as int]);
        let value_bytes = value.to_bytes();
        channel.send(value_bytes.as_slice());
        let path = match merkle_tree.get_authentication_path(idx) {
            Ok(p) => p,
            Err(e) => Vec::new(),
        };
        channel.send(path.as_slice());
        let sibling = layer_evals[sibling_idx];
        assert(sibling@ == vals[k as int][sibling_idx as int]);
        let sibling_bytes = sibling.to_bytes();
        channel.send(sibling_bytes.as_slice());
        let sibling_path = match merkle_tree.get_authentication_path(sibling_idx) {
            Ok(p) => p,
            Err(e) => Vec::new(),
        };
        channel.send(sibling_path.as_slice());
        k = k + 1;
    }
}

/// The channel after `q` queries: for each, an index drawn in
/// `[0, max_index]` and recorded, and the layers opened at it.
pub open spec fn after_queries(
    c: ChannelView,
    max_index: int,
    layers: Seq<Seq<int>>,
    leaves: Seq<Seq<Seq<u8>>>,
    q: nat,
) -> ChannelView
    decreases q,
{
    if q == 0 {
        c
    } else {
        let before = after_queries(c, max_index, layers, leaves, (q - 1) as nat);
        after_decommit(
            after_receive_int(before, 0, max_index, true),
            drawn_int(before, 0, max_index),
            layers,
            leaves,
            0,
        )
    }
}

/// The decommit phase: `num_queries` times, draws a query index in
/// `[0, max_index]` from the channel, records it, and opens every layer at
/// it.
pub fn decommit_fri<const MODULUS: u64>(
    num_queries: usize,
    max_index: usize,
    fri_layers: &[Vec<FieldElement<MODULUS>>],
    fri_merkles: &[MerkleTree<MODULUS>],
    channel: &mut Channel<MODULUS>,
)
    requires
        layers_wf(fri_layers@, fri_merkles@),
        old(channel).wf(),
    ensures
        final(channel)@ == after_queries(
            old(channel)@,
            max_index as int,
            layer_values(fri_layers@),
            layer_leaves(fri_layers@),
            num_queries as nat,
        ),
        final(channel).wf(),
{
    let ghost c0 = channel@;
    let mut q: usize = 0;
    while q < num_queries
        invariant
            layers_wf(fri_layers@, fri_merkles@),
            channel.wf(),
            q <= num_queries,
            channel@ == after_queries(
                c0,
                max_index as int,
                layer_values(fri_layers@),
                layer_leaves(fri_layers@),
                q as nat,
            ),
        decreases num_queries - q,
    {
        let idx = channel.receive_random_int(0, max_index, true);
        decommit_fri_layers(idx, fri_layers, fri_merkles, channel);
        q = q + 1;
    }
}

} // verus!
