use crate::channel::channel::{sha256_hex, Channel};
use crate::encoding::{byte_strings, hex_chars, hex_value};
use crate::error::StarkError;
use crate::fields::element::{be_bytes, be_value, word_to_be_bytes, FieldElement};
use crate::fields::modular::{field_add, field_inv, field_mul, field_sub};
use crate::fri::fri_commit::{next_domain, next_fri_domain, sibling_position};
use crate::merkle::{validate_spec, MerkleTree};
use crate::polynomial::model::reduced;
use crate::polynomial::ops::values;
use vstd::arithmetic::div_mod::*;
use vstd::arithmetic::mul::*;
use vstd::prelude::*;
use vstd::slice::slice_to_vec;
use vstd::utf8::{decode_utf8, valid_utf8};

verus! {

/// The outcome of a verification: the aggregate decision, the first
/// reason to reject if there is one, and every query and layer that failed
/// a check.
#[derive(Debug)]
pub struct FriVerdict {
    pub accepted: bool,
    pub first_failure: Option<StarkError>,
    pub failures: Vec<(usize, usize)>,
}

/// What a verifier is asked to accept: a transcript, the first domain, the
/// number of committed layers, the number of queries and the largest query
/// index, over the integers modulo `modulus`.
pub struct FriClaim {
    pub transcript: Seq<Seq<u8>>,
    pub domain: Seq<int>,
    pub layers: int,
    pub queries: int,
    pub max_index: int,
    pub modulus: int,
}

/// The number of values in layer `k` of a run whose first layer has `n`.
pub open spec fn layer_len(n: int, k: int) -> int
    decreases k,
{
    if k <= 0 {
        n
    } else {
        layer_len(n, k - 1) / 2
    }
}

/// The number of layers, among the first `layers`, that are opened for a
/// query: those before the first layer of at most one value.
pub open spec fn opened_layers(n: int, layers: int) -> int
    decreases layers,
{
    if layers <= 0 {
        0
    } else {
        let below = opened_layers(n, layers - 1);
        if below == layers - 1 && layer_len(n, layers - 1) > 1 {
            layers
        } else {
            below
        }
    }
}

/// The domain of layer `k`.
pub open spec fn domain_at(d: Seq<int>, m: int, k: int) -> Seq<int>
    decreases k,
{
    if k <= 0 {
        d
    } else {
        next_domain(domain_at(d, m, k - 1), m)
    }
}

/// Whether the fold of two opened values at the point `x` is defined.
pub open spec fn fold_defined(x: int, m: int) -> bool {
    m > 2 && x != 0
}

/// The value at `x * x` of the folded polynomial, from the values `v` at
/// `x` and `s` at `-x` of the polynomial before: the even part
/// `(v + s) / 2` plus `beta` times the odd part `(v - s) / (2 x)`.
pub open spec fn fold_value_spec(v: int, s: int, beta: int, x: int, m: int) -> int {
    let half = field_inv(2int % m, m);
    let even = field_mul(field_add(v, s, m), half, m);
    let odd = field_mul(field_mul(field_sub(v, s, m), half, m), field_inv(x, m), m);
    field_add(even, field_mul(beta, odd, m), m)
}

impl FriClaim {
    /// The number of layers opened for every query.
    pub open spec fn opened(self) -> int {
        opened_layers(self.domain.len() as int, self.layers)
    }

    /// The number of transcript entries of one query: the index and four
    /// entries for every opened layer.
    pub open spec fn stride(self) -> int {
        1 + 4 * self.opened()
    }

    /// The position of the recorded index of query `q`.
    pub open spec fn base(self, q: int) -> int {
        2 * self.layers + q * self.stride()
    }

    /// The position of the first of the four entries that open layer `k`
    /// for query `q`.
    pub open spec fn pos(self, q: int, k: int) -> int {
        self.base(q) + 1 + 4 * k
    }

    /// Whether entry `j` records a challenge rather than a message of the
    /// prover: the fold coefficients between the roots, and the index at
    /// the head of every query.
    pub open spec fn is_challenge(self, j: int) -> bool {
        if j < 2 * self.layers {
            j % 2 == 1 && j < 2 * self.layers - 1
        } else {
            (j - 2 * self.layers) % self.stride() == 0
        }
    }

    /// The state of a channel that has replayed the first `j` entries.
    pub open spec fn state_at(self, j: int) -> Seq<char>
        decreases j,
    {
        if j <= 0 {
            Seq::empty()
        } else if self.is_challenge(j - 1) {
            sha256_hex(self.state_at(j - 1))
        } else {
            sha256_hex(self.state_at(j - 1) + hex_chars(self.transcript[j - 1]))
        }
    }

    /// The fold coefficient drawn after layer `k`.
    pub open spec fn beta(self, k: int) -> int {
        hex_value(self.state_at(2 * k + 1)) % self.modulus
    }

    /// The root of layer `k`, as text.
    pub open spec fn root(self, k: int) -> Seq<char> {
        decode_utf8(self.transcript[2 * k])
    }

    /// The final constant.
    pub open spec fn constant(self) -> int {
        be_value(self.transcript[2 * self.layers - 1]) % self.modulus
    }

    /// The index drawn for query `q`.
    pub open spec fn index(self, q: int) -> int {
        hex_value(self.state_at(self.base(q))) % (self.max_index + 1)
    }

    /// The number of values in layer `k`.
    pub open spec fn len_at(self, k: int) -> int {
        layer_len(self.domain.len() as int, k)
    }

    /// The position opened in layer `k` for query `q`.
    pub open spec fn position(self, q: int, k: int) -> int {
        self.index(q) % self.len_at(k)
    }

    /// The position of the sibling.
    pub open spec fn sibling(self, q: int, k: int) -> int {
        (self.position(q, k) + self.len_at(k) / 2) % self.len_at(k)
    }

    /// The domain point of the value opened in layer `k` for query `q`.
    pub open spec fn point(self, q: int, k: int) -> int {
        domain_at(self.domain, self.modulus, k)[self.position(q, k)]
    }

    /// The value opened in layer `k` for query `q`.
    pub open spec fn value(self, q: int, k: int) -> int {
        be_value(self.transcript[self.pos(q, k)]) % self.modulus
    }

    /// The sibling's value.
    pub open spec fn sibling_value(self, q: int, k: int) -> int {
        be_value(self.transcript[self.pos(q, k) + 2]) % self.modulus
    }

    /// The recorded fold coefficients are the ones the transcript
    /// determines, every root is text, and the final constant is an encoded
    /// element.
    pub open spec fn header_ok(self) -> bool {
        &&& forall|k: int|
            0 <= k < self.layers - 1 ==> #[trigger] self.transcript[2 * k + 1] == be_bytes(
                self.beta(k),
                8,
            )
        &&& forall|k: int| 0 <= k < self.layers ==> valid_utf8(#[trigger] self.transcript[2 * k])
        &&& self.transcript[2 * self.layers - 1].len() == 8
    }

    /// The transcript has the shape of a run with these parameters.
    pub open spec fn structure_ok(self) -> bool {
        &&& self.layers >= 1
        &&& self.opened() >= self.layers - 1
        &&& self.transcript.len() == 2 * self.layers + self.queries * self.stride()
        &&& self.header_ok()
    }

    /// The recorded index of query `q` is the one the transcript
    /// determines.
    pub open spec fn index_ok(self, q: int) -> bool {
        self.transcript[self.base(q)] == be_bytes(self.index(q), 8)
    }

    /// Both openings of layer `k` for query `q` are valid against the
    /// layer's root.
    pub open spec fn opening_ok(self, q: int, k: int) -> bool {
        let p = self.pos(q, k);
        &&& validate_spec(
            self.root(k),
            self.transcript[p + 1],
            self.position(q, k),
            self.transcript[p],
            self.len_at(k),
        )
        &&& validate_spec(
            self.root(k),
            self.transcript[p + 3],
            self.sibling(q, k),
            self.transcript[p + 2],
            self.len_at(k),
        )
    }

    /// Both opened values of layer `k` are encoded elements.
    pub open spec fn decodable(self, q: int, k: int) -> bool {
        let p = self.pos(q, k);
        self.transcript[p].len() == 8 && self.transcript[p + 2].len() == 8
    }

    /// The fold of the two values opened in layer `k`.
    pub open spec fn folded(self, q: int, k: int) -> int {
        fold_value_spec(
            self.value(q, k),
            self.sibling_value(q, k),
            self.beta(k),
            self.point(q, k),
            self.modulus,
        )
    }

    /// The value opened in layer `k` is the fold of the two values opened
    /// in the layer before.
    pub open spec fn link_ok(self, q: int, k: int) -> bool {
        k == 0 || {
            &&& self.decodable(q, k - 1)
            &&& fold_defined(self.point(q, k - 1), self.modulus)
            &&& self.folded(q, k - 1) == self.value(q, k)
        }
    }

    /// The last opened layer leads to the final constant: its values are
    /// the constant where it is the last layer, and fold to it where one
    /// more layer, of a single value, follows.
    pub open spec fn final_ok(self, q: int, k: int) -> bool {
        k != self.opened() - 1 || (if self.opened() == self.layers {
            self.value(q, k) == self.constant() && self.sibling_value(q, k) == self.constant()
        } else {
            fold_defined(self.point(q, k), self.modulus) && self.folded(q, k) == self.constant()
        })
    }

    /// Every check on layer `k` of query `q` holds; the check of the
    /// query's index counts for its first layer.
    pub open spec fn slot_ok(self, q: int, k: int) -> bool {
        &&& k > 0 || self.index_ok(q)
        &&& k < self.opened() ==> {
            &&& self.opening_ok(q, k)
            &&& self.decodable(q, k)
            &&& self.link_ok(q, k)
            &&& self.final_ok(q, k)
        }
    }

    /// Why slot `k` of query `q` fails, if it does: a recorded index that
    /// is not the one drawn, or an opened value that is no encoded element,
    /// breaks the protocol; everything else is a failed verification.
    pub open spec fn slot_reason(self, q: int, k: int) -> StarkError {
        if (k == 0 && !self.index_ok(q)) || (k < self.opened() && !self.decodable(q, k)) {
            StarkError::ProtocolError
        } else {
            StarkError::VerificationFailure
        }
    }

    /// The number of slots of a query: its opened layers, and at least one
    /// for its index.
    pub open spec fn slots(self) -> int {
        if self.opened() >= 1 {
            self.opened()
        } else {
            1
        }
    }

    /// The claim holds: the transcript has the right shape and every check
    /// of every query passes.
    pub open spec fn accepts(self) -> bool {
        &&& self.structure_ok()
        &&& forall|q: int, k: int|
            0 <= q < self.queries && 0 <= k < self.slots() ==> #[trigger] self.slot_ok(q, k)
    }
}

/// Calls `String::from_utf8`: the text that `bytes` encode in UTF-8; none
/// where they encode no text.
#[verifier::external_body]
fn utf8_text(bytes: Vec<u8>) -> (r: Option<String>)
    ensures
        valid_utf8(bytes@) ==> r is Some && r->Some_0@ == decode_utf8(bytes@),
        !valid_utf8(bytes@) ==> r is None,
{
    String::from_utf8(bytes).ok()
}

/// Whether two byte strings are the same.
pub fn bytes_equal(a: &[u8], b: &[u8]) -> (r: bool)
    ensures
        r == (a@ == b@),
{
    if a.len() != b.len() {
        return false;
    }
    let mut i: usize = 0;
    while i < a.len()
        invariant
            a@.len() == b@.len(),
            i <= a@.len(),
            forall|j: int| 0 <= j < i ==> a@[j] == b@[j],
        decreases a@.len() - i,
    {
        if a[i] != b[i] {
            return false;
        }
        i = i + 1;
    }
    assert(a@ =~= b@);
    true
}

/// The value at `x * x` of the folded polynomial, from the values `v` at
/// `x` and `s` at `-x`. It needs the inverses of 2 and of `x`.
pub fn fold_value<const MODULUS: u64>(
    v: FieldElement<MODULUS>,
    s: FieldElement<MODULUS>,
    beta: FieldElement<MODULUS>,
    x: FieldElement<MODULUS>,
) -> (r: Result<FieldElement<MODULUS>, StarkError>)
    requires
        v.wf(),
        s.wf(),
        beta.wf(),
        x.wf(),
    ensures
        MODULUS <= 2 ==> r == Err::<FieldElement<MODULUS>, StarkError>(
            StarkError::ConfigurationError,
        ),
        MODULUS > 2 && x@ == 0 ==> r == Err::<FieldElement<MODULUS>, StarkError>(
            StarkError::ArithmeticError,
        ),
        fold_defined(x@, MODULUS as int) ==> r is Ok && r->Ok_0.wf() && r->Ok_0@
            == fold_value_spec(v@, s@, beta@, x@, MODULUS as int),
{
    if MODULUS <= 2 {
        return Err(StarkError::ConfigurationError);
    }
    let two = FieldElement::<MODULUS>::new(2);
    proof {
        lemma_small_mod(2, MODULUS as nat);
    }
    let half = match two.inverse() {
        Ok(h) => h,
        Err(e) => {
            return Err(e);
        },
    };
    let x_inv = match x.inverse() {
        Ok(i) => i,
        Err(e) => {
            return Err(e);
        },
    };
    let even = (v + s) * half;
    let odd = (v - s) * half * x_inv;
    Ok(even + beta * odd)
}

/// Once a layer has at most one value, no later layer is opened.
proof fn lemma_opened_stops(n: int, o: int, layers: int)
    requires
        0 <= o <= layers,
        opened_layers(n, o) == o,
        layer_len(n, o) <= 1,
    ensures
        opened_layers(n, layers) == o,
    decreases layers - o,
{
    if o < layers {
        lemma_opened_stops(n, o, layers - 1);
    }
}

/// The opened layers are the first ones.
proof fn lemma_opened_bound(n: int, layers: int)
    requires
        0 <= layers,
    ensures
        0 <= opened_layers(n, layers) <= layers,
    decreases layers,
{
    if layers > 0 {
        lemma_opened_bound(n, layers - 1);
    }
}

/// The number of layers opened per query, and the domains of those layers.
fn opened_domains<const MODULUS: u64>(domain: &[FieldElement<MODULUS>], layers: usize) -> (r: Vec<
    Vec<FieldElement<MODULUS>>,
>)
    requires
        reduced(values(domain@), MODULUS as int),
    ensures
        r@.len() == opened_layers(domain@.len() as int, layers as int),
        forall|k: int|
            0 <= k < r@.len() ==> values((#[trigger] r@[k])@) == domain_at(
                values(domain@),
                MODULUS as int,
                k,
            ),
        forall|k: int|
            0 <= k < r@.len() ==> (#[trigger] r@[k])@.len() == layer_len(domain@.len() as int, k),
        forall|k: int| 0 <= k < r@.len() ==> (#[trigger] r@[k])@.len() > 1,
        forall|k: int| 0 <= k < r@.len() ==> reduced(values((#[trigger] r@[k])@), MODULUS as int),
{
    let ghost n = domain@.len() as int;
    let ghost d0 = values(domain@);
    let ghost m = MODULUS as int;
    let mut out: Vec<Vec<FieldElement<MODULUS>>> = Vec::new();
    let mut current = slice_to_vec(domain);
    assert(values(current@) == d0);
    let mut k: usize = 0;
    while k < layers && current.len() > 1
        invariant
            n == domain@.len(),
            d0 == values(domain@),
            m == MODULUS,
            k <= layers,
            out@.len() == k,
            opened_layers(n, k as int) == k,
            values(current@) == domain_at(d0, m, k as int),
            current@.len() == layer_len(n, k as int),
            reduced(values(current@), m),
            forall|j: int| 0 <= j < k ==> values((#[trigger] out@[j])@) == domain_at(d0, m, j),
            forall|j: int| 0 <= j < k ==> (#[trigger] out@[j])@.len() == layer_len(n, j),
            forall|j: int| 0 <= j < k ==> (#[trigger] out@[j])@.len() > 1,
            forall|j: int| 0 <= j < k ==> reduced(values((#[trigger] out@[j])@), m),
        decreases layers - k,
    {
        let next = next_fri_domain(current.as_slice());
        assert(next@.len() == values(next@).len());
        out.push(current);
        current = next;
        k = k + 1;
    }
    proof {
        if k < layers {
            lemma_opened_stops(n, k as int, layers as int);
        }
    }
    out
}

/// Replays the commit phase: every root is absorbed, every fold
/// coefficient drawn and compared with the recorded one, and the final
/// constant absorbed.
fn replay_header<const MODULUS: u64>(
    transcript: &Vec<Vec<u8>>,
    layers: usize,
    replay: &mut Channel<MODULUS>,
    Ghost(c): Ghost<FriClaim>,
) -> (r: Option<(Vec<String>, Vec<FieldElement<MODULUS>>, FieldElement<MODULUS>)>)
    requires
        MODULUS > 0,
        c.transcript == byte_strings(transcript@),
        c.layers == layers,
        c.modulus == MODULUS,
        layers >= 1,
        transcript@.len() >= 2 * layers,
        old(replay).wf(),
        old(replay)@.state == Seq::<char>::empty(),
    ensures
        final(replay).wf(),
        final(replay)@.state == c.state_at(2 * layers),
        r is Some <==> c.header_ok(),
        match r {
            Some((roots, betas, constant)) => {
                &&& roots@.len() == layers
                &&& forall|k: int| 0 <= k < layers ==> (#[trigger] roots@[k])@ == c.root(k)
                &&& betas@.len() == layers - 1
                &&& forall|k: int| 0 <= k < layers - 1 ==> (#[trigger] betas@[k])@ == c.beta(k)
                &&& forall|k: int| 0 <= k < layers - 1 ==> (#[trigger] betas@[k]).wf()
                &&& constant@ == c.constant()
                &&& constant.wf()
            },
            None => true,
        },
{
    let mut roots: Vec<String> = Vec::new();
    let mut betas: Vec<FieldElement<MODULUS>> = Vec::new();
    let mut ok = true;
    let mut k: usize = 0;
    let total = transcript.len();
    while k < layers
        invariant
            MODULUS > 0,
            total == transcript@.len(),
            c.transcript == byte_strings(transcript@),
            c.layers == layers,
            c.modulus == MODULUS,
            layers >= 1,
            transcript@.len() >= 2 * layers,
            k <= layers,
            replay.wf(),
            replay@.state == c.state_at(if k == 0 {
                0
            } else {
                2 * k - 1
            }),
            betas@.len() == (if k == 0 {
                0
            } else {
                k - 1
            }),
            forall|j: int| 0 <= j < k - 1 ==> (#[trigger] betas@[j])@ == c.beta(j),
            forall|j: int| 0 <= j < k - 1 ==> (#[trigger] betas@[j]).wf(),
            ok ==> roots@.len() == k,
            ok ==> forall|j: int| 0 <= j < k ==> (#[trigger] roots@[j])@ == c.root(j),
            ok <==> {
                &&& forall|j: int|
                    0 <= j < k - 1 ==> #[trigger] c.transcript[2 * j + 1] == be_bytes(c.beta(j), 8)
                &&& forall|j: int| 0 <= j < k ==> valid_utf8(#[trigger] c.transcript[2 * j])
            },
        decreases layers - k,
    {
        if k > 0 {
            // the coefficient drawn after layer k - 1, recorded at 2k - 1
            let beta = replay.receive_random_field_element();
            let recorded = &transcript[2 * k - 1];
            let expected = beta.to_bytes();
            assert(c.state_at(2 * k) == sha256_hex(c.state_at(2 * k - 1))) by {
                assert(c.is_challenge(2 * k - 1));
            }
            assert(beta@ == c.beta(k - 1));
            if !bytes_equal(recorded.as_slice(), expected.as_slice()) {
                assert(c.transcript[2 * (k - 1) + 1] != be_bytes(c.beta(k - 1), 8));
                ok = false;
            } else {
                assert(c.transcript[2 * (k - 1) + 1] == be_bytes(c.beta(k - 1), 8));
            }
            betas.push(beta);
        }
        let root_bytes = &transcript[2 * k];
        assert(c.transcript[2 * k] == root_bytes@);
        assert(c.state_at(2 * k + 1) == sha256_hex(c.state_at(2 * k as int) + hex_chars(root_bytes@)))
            by {
            assert(!c.is_challenge(2 * k as int));
        }
        replay.send(root_bytes.as_slice());
        match utf8_text(slice_to_vec(root_bytes.as_slice())) {
            Some(text) => {
                if ok {
                    roots.push(text);
                }
            },
            None => {
                ok = false;
            },
        }
        k = k + 1;
    }
    let constant_bytes = &transcript[2 * layers - 1];
    assert(c.transcript[2 * layers - 1] == constant_bytes@);
    assert(c.state_at(2 * layers as int) == sha256_hex(
        c.state_at(2 * layers - 1) + hex_chars(constant_bytes@),
    )) by {
        assert(!c.is_challenge(2 * layers - 1));
    }
    replay.send(constant_bytes.as_slice());
    match FieldElement::<MODULUS>::from_bytes(constant_bytes.as_slice()) {
        Ok(constant) => {
            if ok {
                Some((roots, betas, constant))
            } else {
                None
            }
        },
        Err(e) => None,
    }
}

/// The claim that a call of the verifier decides.
pub open spec fn fri_claim<const MODULUS: u64>(
    num_queries: usize,
    max_index: usize,
    expected_num_layers: usize,
    channel: &Channel<MODULUS>,
    domain: &[FieldElement<MODULUS>],
) -> FriClaim {
    FriClaim {
        transcript: channel@.proof,
        domain: values(domain@),
        layers: expected_num_layers as int,
        queries: num_queries as int,
        max_index: max_index as int,
        modulus: MODULUS as int,
    }
}

/// The failures recorded so far are the failed slots before slot `k` of
/// query `q`.
pub open spec fn recorded(c: FriClaim, failures: Seq<(usize, usize)>, q: int, k: int) -> bool {
    forall|a: usize, b: usize| #[trigger]
        failures.contains((a, b)) <==> (a < q || (a == q && b < k)) && b < c.slots() && !c.slot_ok(
            a as int,
            b as int,
        )
}

/// What a pushed element adds to the elements of a sequence.
proof fn lemma_push_contains(s: Seq<(usize, usize)>, x: (usize, usize), y: (usize, usize))
    ensures
        s.push(x).contains(y) <==> (s.contains(y) || y == x),
{
    let t = s.push(x);
    if s.contains(y) {
        let i = choose|i: int| 0 <= i < s.len() && s[i] == y;
        assert(t[i] == y);
    }
    if y == x {
        assert(t[s.len() as int] == y);
    }
    if t.contains(y) {
        let i = choose|i: int| 0 <= i < t.len() && t[i] == y;
        if i < s.len() {
            assert(s[i] == y);
        }
    }
}

/// The head of a query records a challenge; the entries that open its
/// layers are messages.
proof fn lemma_entry_kinds(c: FriClaim, q: int, r: int)
    requires
        c.layers >= 0,
        c.opened() >= 0,
        0 <= q,
        0 <= r < c.stride(),
    ensures
        c.is_challenge(c.base(q) + r) <==> r == 0,
{
    let stride = c.stride();
    lemma_mul_nonnegative(q, stride);
    lemma_mod_multiples_vanish(q, r, stride);
    lemma_mul_is_commutative(q, stride);
    lemma_small_mod(r as nat, stride as nat);
    assert(c.base(q) + r - 2 * c.layers == stride * q + r);
}

/// Queries follow one another at a distance of one stride.
proof fn lemma_base_step(c: FriClaim, q: int)
    ensures
        c.base(q + 1) == c.base(q) + c.stride(),
{
    lemma_mul_is_distributive_add_other_way(c.stride(), q, 1);
}

/// Every query lies within a transcript of the right length.
proof fn lemma_base_bound(c: FriClaim, q: int)
    requires
        0 <= q < c.queries,
        c.opened() >= 0,
    ensures
        c.base(q) + c.stride() <= 2 * c.layers + c.queries * c.stride(),
{
    lemma_base_step(c, q);
    lemma_mul_inequality(q + 1, c.queries, c.stride());
}

/// The number of entries of a transcript with `layers` layers and
/// `num_queries` queries that open `opened` layers each; none where the
/// number does not fit a machine word.
fn expected_length(layers: usize, num_queries: usize, opened: usize) -> (r: Option<usize>)
    ensures
        match r {
            Some(n) => n == 2 * layers + num_queries * (1 + 4 * opened),
            None => 2 * layers + num_queries * (1 + 4 * opened) > usize::MAX,
        },
{
    let ghost stride = 1 + 4 * opened;
    proof {
        lemma_mul_nonnegative(num_queries as int, stride);
    }
    let header = match layers.checked_mul(2) {
        Some(h) => h,
        None => {
            return None;
        },
    };
    if num_queries == 0 {
        assert(num_queries * stride == 0) by (nonlinear_arith)
            requires
                num_queries == 0,
        ;
        return Some(header);
    }
    proof {
        lemma_mul_inequality(1, num_queries as int, stride);
        assert(1 * stride == stride);
    }
    let four = match opened.checked_mul(4) {
        Some(f) => f,
        None => {
            return None;
        },
    };
    let per_query = match four.checked_add(1) {
        Some(s) => s,
        None => {
            return None;
        },
    };
    let body = match num_queries.checked_mul(per_query) {
        Some(b) => b,
        None => {
            return None;
        },
    };
    header.checked_add(body)
}

/// Checks the opening of layer `k` for query `q`: the two Merkle paths,
/// the link to the layer before, and, at the last opened layer, the way to
/// the final constant. Also folds the two opened values for the next
/// layer.
fn check_layer<const MODULUS: u64>(
    transcript: &Vec<Vec<u8>>,
    p: usize,
    root: &String,
    size: usize,
    idx: usize,
    k: usize,
    opened: usize,
    layers: usize,
    index_ok: bool,
    prev_folded: Option<FieldElement<MODULUS>>,
    beta: Option<FieldElement<MODULUS>>,
    x: FieldElement<MODULUS>,
    constant: FieldElement<MODULUS>,
    Ghost(c): Ghost<FriClaim>,
    Ghost(q): Ghost<int>,
) -> (r: (bool, Option<FieldElement<MODULUS>>, StarkError))
    requires
        MODULUS > 0,
        c.transcript == byte_strings(transcript@),
        c.modulus == MODULUS,
        c.layers == layers,
        c.opened() == opened,
        layers - 1 <= opened <= layers,
        0 <= q,
        k < opened,
        p == c.pos(q, k as int),
        p + 3 < transcript@.len(),
        root@ == c.root(k as int),
        size == c.len_at(k as int),
        size > 1,
        idx == c.index(q),
        x@ == c.point(q, k as int),
        x.wf(),
        constant@ == c.constant(),
        constant.wf(),
        index_ok == c.index_ok(q),
        k < layers - 1 ==> beta is Some && beta->Some_0@ == c.beta(k as int) && beta->Some_0.wf(),
        k >= layers - 1 ==> beta is None,
        k > 0 ==> (prev_folded is Some <==> c.decodable(q, k - 1) && fold_defined(
            c.point(q, k - 1),
            c.modulus,
        )),
        k > 0 && prev_folded is Some ==> prev_folded->Some_0@ == c.folded(q, k - 1),
    ensures
        r.0 == c.slot_ok(q, k as int),
        k < layers - 1 ==> (r.1 is Some <==> c.decodable(q, k as int) && fold_defined(
            c.point(q, k as int),
            c.modulus,
        )),
        k < layers - 1 && r.1 is Some ==> r.1->Some_0@ == c.folded(q, k as int) && r.1->Some_0.wf(),
        r.2 == c.slot_reason(q, k as int),
{
    let total = transcript.len();
    let position = idx % size;
    let sibling = sibling_position(position, size);
    let value_bytes = &transcript[p];
    let path = &transcript[p + 1];
    let sibling_bytes = &transcript[p + 2];
    let sibling_path = &transcript[p + 3];
    assert(c.transcript[p as int] == value_bytes@);
    assert(c.transcript[p + 1] == path@);
    assert(c.transcript[p + 2] == sibling_bytes@);
    assert(c.transcript[p + 3] == sibling_path@);
    let first_valid = MerkleTree::<MODULUS>::validate(
        root,
        path.as_slice(),
        position,
        value_bytes.as_slice(),
        size,
    );
    let second_valid = MerkleTree::<MODULUS>::validate(
        root,
        sibling_path.as_slice(),
        sibling,
        sibling_bytes.as_slice(),
        size,
    );
    let opening_ok = first_valid && second_valid;
    assert(opening_ok == c.opening_ok(q, k as int));
    let value = FieldElement::<MODULUS>::from_bytes(value_bytes.as_slice());
    let sibling_value = FieldElement::<MODULUS>::from_bytes(sibling_bytes.as_slice());
    match (value, sibling_value) {
        (Ok(v), Ok(s)) => {
            assert(c.decodable(q, k as int));
            assert(v@ == c.value(q, k as int));
            assert(s@ == c.sibling_value(q, k as int));
            let link_ok = if k == 0 {
                true
            } else {
                match prev_folded {
                    Some(f) => f == v,
                    None => false,
                }
            };
            assert(link_ok == c.link_ok(q, k as int));
            let folded = match beta {
                Some(b) => {
                    match fold_value(v, s, b, x) {
                        Ok(f) => Some(f),
                        Err(e) => None,
                    }
                },
                None => None,
            };
            let final_ok = if k + 1 != opened {
                true
            } else if opened == layers {
                v == constant && s == constant
            } else {
                match folded {
                    Some(f) => f == constant,
                    None => false,
                }
            };
            assert(final_ok == c.final_ok(q, k as int));
            let reason = if k == 0 && !index_ok {
                StarkError::ProtocolError
            } else {
                StarkError::VerificationFailure
            };
            ((k > 0 || index_ok) && opening_ok && link_ok && final_ok, folded, reason)
        },
        _ => {
            assert(!c.decodable(q, k as int));
            (false, None, StarkError::ProtocolError)
        },
    }
}

/// Verifies a run of the protocol from its transcript, the full log of
/// `channel`, against the first `domain`: replays the commit phase, draws
/// every query index as the prover did, and checks every opened layer of
/// every query. A transcript of the wrong shape is rejected at once; after
/// that every query is checked, whatever the others gave.
pub fn verify_fri_report<const MODULUS: u64>(
    num_queries: usize,
    max_index: usize,
    expected_num_layers: usize,
    channel: &Channel<MODULUS>,
    domain: &[FieldElement<MODULUS>],
) -> (v: FriVerdict)
    requires
        MODULUS > 0,
        reduced(values(domain@), MODULUS as int),
    ensures
        ({
            let c = fri_claim(num_queries, max_index, expected_num_layers, channel, domain);
            &&& v.accepted == c.accepts()
            &&& v.accepted <==> v.first_failure is None
            &&& !c.structure_ok() ==> v.failures@.len() == 0
            &&& !c.structure_ok() ==> v.first_failure == Some(
                if c.layers >= 1 && c.opened() < c.layers - 1 {
                    StarkError::ShapeError
                } else {
                    StarkError::ProtocolError
                },
            )
            &&& c.structure_ok() ==> forall|a: usize, b: usize| #[trigger]
                v.failures@.contains((a, b)) <==> a < c.queries && b < c.slots() && !c.slot_ok(
                    a as int,
                    b as int,
                )
            &&& c.structure_ok() && !v.accepted ==> v.failures@.len() > 0 && v.first_failure
                == Some(c.slot_reason(v.failures@[0].0 as int, v.failures@[0].1 as int))
        }),
{
    let ghost c = fri_claim(num_queries, max_index, expected_num_layers, channel, domain);
    let transcript = &channel.proof;
    let layers = expected_num_layers;
    let mut failures: Vec<(usize, usize)> = Vec::new();
    if layers == 0 {
        return FriVerdict {
            accepted: false,
            first_failure: Some(StarkError::ProtocolError),
            failures,
        };
    }
    let domains = opened_domains(domain, layers);
    let opened = domains.len();
    proof {
        lemma_opened_bound(c.domain.len() as int, c.layers);
    }
    if opened < layers - 1 {
        return FriVerdict { accepted: false, first_failure: Some(StarkError::ShapeError), failures };
    }
    let expected_len = expected_length(layers, num_queries, opened);
    let total = transcript.len();
    let length_ok = match expected_len {
        Some(n) => n == total,
        None => false,
    };
    if !length_ok {
        return FriVerdict {
            accepted: false,
            first_failure: Some(StarkError::ProtocolError),
            failures,
        };
    }
    let mut replay = Channel::<MODULUS>::new();
    let (roots, betas, constant) = match replay_header(transcript, layers, &mut replay, Ghost(c)) {
        Some(h) => h,
        None => {
            return FriVerdict {
                accepted: false,
                first_failure: Some(StarkError::ProtocolError),
                failures,
            };
        },
    };
    assert(c.structure_ok());
    let mut first_failure: Option<StarkError> = None;
    let mut pos: usize = 2 * layers;
    let mut q: usize = 0;
    proof {
        assert(c.base(0) == 2 * c.layers) by (nonlinear_arith)
            requires
                c.base(0) == 2 * c.layers + 0 * c.stride(),
        ;
    }
    while q < num_queries
        invariant
            MODULUS > 0,
            c == fri_claim(num_queries, max_index, expected_num_layers, channel, domain),
            transcript == &channel.proof,
            c.transcript == byte_strings(transcript@),
            c.structure_ok(),
            layers == expected_num_layers,
            opened == c.opened(),
            opened == domains@.len(),
            opened <= layers,
            total == transcript@.len(),
            total == 2 * c.layers + c.queries * c.stride(),
            q <= num_queries,
            pos == c.base(q as int),
            pos <= total,
            replay.wf(),
            replay@.state == c.state_at(pos as int),
            recorded(c, failures@, q as int, 0),
            failures@.len() == 0 ==> first_failure is None,
            failures@.len() > 0 ==> first_failure == Some(
                c.slot_reason(failures@[0].0 as int, failures@[0].1 as int),
            ),
            roots@.len() == layers,
            forall|k: int| 0 <= k < layers ==> (#[trigger] roots@[k])@ == c.root(k),
            betas@.len() == layers - 1,
            forall|k: int| 0 <= k < layers - 1 ==> (#[trigger] betas@[k])@ == c.beta(k),
            forall|k: int| 0 <= k < layers - 1 ==> (#[trigger] betas@[k]).wf(),
            constant@ == c.constant(),
            constant.wf(),
            forall|k: int|
                0 <= k < domains@.len() ==> values((#[trigger] domains@[k])@) == domain_at(
                    values(domain@),
                    MODULUS as int,
                    k,
                ),
            forall|k: int|
                0 <= k < domains@.len() ==> (#[trigger] domains@[k])@.len() == layer_len(
                    domain@.len() as int,
                    k,
                ),
            forall|k: int| 0 <= k < domains@.len() ==> (#[trigger] domains@[k])@.len() > 1,
            forall|k: int|
                0 <= k < domains@.len() ==> reduced(
                    values((#[trigger] domains@[k])@),
                    MODULUS as int,
                ),
        decreases num_queries - q,
    {
        proof {
            lemma_base_bound(c, q as int);
            lemma_base_step(c, q as int);
            lemma_entry_kinds(c, q as int, 0);
        }
        let idx = replay.receive_random_int(0, max_index, true);
        assert(idx == c.index(q as int));
        let recorded_index = &transcript[pos];
        assert(c.transcript[pos as int] == recorded_index@);
        let expected_index = word_to_be_bytes(idx as u64);
        let index_ok = bytes_equal(recorded_index.as_slice(), expected_index.as_slice());
        assert(index_ok == c.index_ok(q as int));
        let ghost base = pos as int;
        pos = pos + 1;
        let mut prev_folded: Option<FieldElement<MODULUS>> = None;
        let mut k: usize = 0;
        while k < opened
            invariant
                MODULUS > 0,
                c == fri_claim(num_queries, max_index, expected_num_layers, channel, domain),
                transcript == &channel.proof,
                c.transcript == byte_strings(transcript@),
                c.structure_ok(),
                layers == expected_num_layers,
                opened == c.opened(),
                opened == domains@.len(),
                opened <= layers,
                total == transcript@.len(),
                q < num_queries,
                base == c.base(q as int),
                base + c.stride() <= total,
                k <= opened,
                pos == c.pos(q as int, k as int),
                replay.wf(),
                replay@.state == c.state_at(pos as int),
                idx == c.index(q as int),
                index_ok == c.index_ok(q as int),
                recorded(c, failures@, q as int, k as int),
                failures@.len() == 0 ==> first_failure is None,
                failures@.len() > 0 ==> first_failure == Some(
                    c.slot_reason(failures@[0].0 as int, failures@[0].1 as int),
                ),
                0 < k < opened ==> (prev_folded is Some <==> c.decodable(q as int, k - 1)
                    && fold_defined(c.point(q as int, k - 1), c.modulus)),
                0 < k < opened && prev_folded is Some ==> prev_folded->Some_0@ == c.folded(
                    q as int,
                    k - 1,
                ),
                roots@.len() == layers,
                forall|j: int| 0 <= j < layers ==> (#[trigger] roots@[j])@ == c.root(j),
                betas@.len() == layers - 1,
                forall|j: int| 0 <= j < layers - 1 ==> (#[trigger] betas@[j])@ == c.beta(j),
                forall|j: int| 0 <= j < layers - 1 ==> (#[trigger] betas@[j]).wf(),
                constant@ == c.constant(),
                constant.wf(),
                forall|j: int|
                    0 <= j < domains@.len() ==> values((#[trigger] domains@[j])@) == domain_at(
                        values(domain@),
                        MODULUS as int,
                        j,
                    ),
                forall|j: int|
                    0 <= j < domains@.len() ==> (#[trigger] domains@[j])@.len() == layer_len(
                        domain@.len() as int,
                        j,
                    ),
                forall|j: int| 0 <= j < domains@.len() ==> (#[trigger] domains@[j])@.len() > 1,
                forall|j: int|
                    0 <= j < domains@.len() ==> reduced(
                        values((#[trigger] domains@[j])@),
                        MODULUS as int,
                    ),
            decreases opened - k,
        {
            let layer_domain = &domains[k];
            let size = layer_domain.len();
            let position = idx % size;
            let x = layer_domain[position];
            assert(x@ == values(layer_domain@)[position as int]);
            assert(x@ == c.point(q as int, k as int));
            let beta = if k < layers - 1 {
                Some(betas[k])
            } else {
                None
            };
            let (ok, folded, reason) = check_layer(
                transcript,
                pos,
                &roots[k],
                size,
                idx,
                k,
                opened,
                layers,
                index_ok,
                prev_folded,
                beta,
                x,
                constant,
                Ghost(c),
                Ghost(q as int),
            );
            // the verifier's channel absorbs the four entries
            proof {
                lemma_entry_kinds(c, q as int, 1 + 4 * k);
                lemma_entry_kinds(c, q as int, 2 + 4 * k);
                lemma_entry_kinds(c, q as int, 3 + 4 * k);
                lemma_entry_kinds(c, q as int, 4 + 4 * k);
                assert(c.transcript[pos as int] == transcript@[pos as int]@);
                assert(c.transcript[pos + 1] == transcript@[pos + 1]@);
                assert(c.transcript[pos + 2] == transcript@[pos + 2]@);
                assert(c.transcript[pos + 3] == transcript@[pos + 3]@);
            }
            replay.send(transcript[pos].as_slice());
            assert(replay@.state == c.state_at(pos + 1)) by {
                assert(!c.is_challenge(pos as int));
            }
            replay.send(transcript[pos + 1].as_slice());
            assert(replay@.state == c.state_at(pos + 2)) by {
                assert(!c.is_challenge(pos + 1));
            }
            replay.send(transcript[pos + 2].as_slice());
            assert(replay@.state == c.state_at(pos + 3)) by {
                assert(!c.is_challenge(pos + 2));
            }
            replay.send(transcript[pos + 3].as_slice());
            assert(replay@.state == c.state_at(pos + 4)) by {
                assert(!c.is_challenge(pos + 3));
            }
            if !ok {
                proof {
                    let old_failures = failures@;
                    assert forall|a: usize, b: usize| #[trigger]
                        old_failures.push((q, k)).contains((a, b)) <==> (a < q || (a == q && b < k
                            + 1)) && b < c.slots() && !c.slot_ok(a as int, b as int) by {
                        lemma_push_contains(old_failures, (q, k), (a, b));
                    }
                }
                if failures.len() == 0 {
                    first_failure = Some(reason);
                }
                failures.push((q, k));
            }
            prev_folded = folded;
            pos = pos + 4;
            k = k + 1;
        }
        if opened == 0 && !index_ok {
            proof {
                let old_failures = failures@;
                assert forall|a: usize, b: usize| #[trigger]
                    old_failures.push((q, 0)).contains((a, b)) <==> (a < q + 1 || (a == q + 1 && b
                        < 0)) && b < c.slots() && !c.slot_ok(a as int, b as int) by {
                    lemma_push_contains(old_failures, (q, 0), (a, b));
                }
            }
            if failures.len() == 0 {
                first_failure = Some(StarkError::ProtocolError);
            }
            failures.push((q, 0));
        }
        q = q + 1;
    }
    let accepted = failures.len() == 0;
    proof {
        if accepted {
            assert forall|a: int, b: int| 0 <= a < c.queries && 0 <= b < c.slots() implies #[trigger]
                c.slot_ok(a, b) by {
                assert(!failures@.contains((a as usize, b as usize)));
            }
        } else {
            let f = failures@[0];
            assert(failures@.contains(f));
            assert(failures@.contains((f.0, f.1)));
        }
    }
    FriVerdict { accepted, first_failure, failures }
}

/// Whether the transcript in `channel` is accepted: the aggregate decision
/// of `verify_fri_report`.
pub fn verify_fri<const MODULUS: u64>(
    num_queries: usize,
    max_index: usize,
    expected_num_layers: usize,
    channel: &Channel<MODULUS>,
    domain: &[FieldElement<MODULUS>],
) -> (accepted: bool)
    requires
        MODULUS > 0,
        reduced(values(domain@), MODULUS as int),
    ensures
        accepted == fri_claim(
            num_queries,
            max_index,
            expected_num_layers,
            channel,
            domain,
        ).accepts(),
{
    verify_fri_report(num_queries, max_index, expected_num_layers, channel, domain).accepted
}

} // verus!
