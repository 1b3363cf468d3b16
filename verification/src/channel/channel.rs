use crate::encoding::{byte_strings, hex_chars, hex_value, is_hex_string, total_len};
use crate::fields::element::{be_bytes, word_to_be_bytes, FieldElement};
use alloy::hex;
use alloy::primitives::U256;
use vstd::arithmetic::div_mod::*;
use vstd::prelude::*;
use vstd::slice::slice_to_vec;
use vstd::string::StringExecFns;

verus! {

/// The SHA-256 digest of the text `input`, as 64 lowercase hexadecimal
/// digits.
pub uninterp spec fn sha256_hex(input: Seq<char>) -> Seq<char>;

/// The number held by four 64-bit limbs, least significant first.
pub open spec fn limbs_value(limbs: Seq<u64>) -> int {
    limbs[0] as int + 0x1_0000_0000_0000_0000 * (limbs[1] as int + 0x1_0000_0000_0000_0000 * (
    limbs[2] as int + 0x1_0000_0000_0000_0000 * (limbs[3] as int)))
}

/// Calls `alloy::hex::encode`: two lowercase hexadecimal digits for every
/// byte of `message`.
#[verifier::external_body]
fn hex_encode(message: &[u8]) -> (r: String)
    ensures
        r@ == hex_chars(message@),
{
    hex::encode(message)
}

/// Calls `sha256::digest` on a string: the SHA-256 digest of its bytes,
/// written as 64 lowercase hexadecimal digits.
#[verifier::external_body]
fn sha256_hex_digest(input: String) -> (r: String)
    ensures
        r@ == sha256_hex(input@),
        r@.len() == 64,
        is_hex_string(r@),
{
    sha256::digest(input)
}

/// Calls `alloy::primitives::U256::from_str_radix` with radix 16 and reads
/// the limbs of the number: up to 64 hexadecimal digits always parse, to
/// the number they write; none where parsing fails.
#[verifier::external_body]
fn hex_to_limbs(state: &str) -> (r: Option<[u64; 4]>)
    ensures
        is_hex_string(state@) && state@.len() <= 64 ==> r is Some && limbs_value(r->Some_0@)
            == hex_value(state@),
{
    match U256::from_str_radix(state, 16) {
        Ok(v) => Some(v.into_limbs()),
        Err(_) => None,
    }
}

/// Appending a limb and reducing commutes with reducing first.
proof fn lemma_limb_step(high: int, limb: int, range: int)
    requires
        range > 0,
    ensures
        ((high % range) * 0x1_0000_0000_0000_0000 + limb) % range == (high
            * 0x1_0000_0000_0000_0000 + limb) % range,
{
    let b = 0x1_0000_0000_0000_0000int;
    lemma_mul_mod_noop_left(high, b, range);
    lemma_add_mod_noop_left_general((high % range) * b, high * b, limb, range);
}

proof fn lemma_add_mod_noop_left_general(x: int, y: int, z: int, m: int)
    requires
        m > 0,
        x % m == y % m,
    ensures
        (x + z) % m == (y + z) % m,
{
    lemma_add_mod_noop(x, z, m);
    lemma_add_mod_noop(y, z, m);
}

/// The number held by `limbs`, modulo `range`.
pub fn limbs_mod(limbs: &[u64; 4], range: u128) -> (r: u64)
    requires
        0 < range <= 0x1_0000_0000_0000_0000,
    ensures
        r == limbs_value(limbs@) % (range as int),
{
    let base: u128 = 0x1_0000_0000_0000_0000;
    let a3: u128 = (limbs[3] as u128) % range;
    let a2: u128 = (a3 * base + limbs[2] as u128) % range;
    let a1: u128 = (a2 * base + limbs[1] as u128) % range;
    let a0: u128 = (a1 * base + limbs[0] as u128) % range;
    proof {
        let rg = range as int;
        let l0 = limbs@[0] as int;
        let l1 = limbs@[1] as int;
        let l2 = limbs@[2] as int;
        let l3 = limbs@[3] as int;
        let b = 0x1_0000_0000_0000_0000int;
        let h2 = l3 * b + l2;
        let h1 = h2 * b + l1;
        let h0 = h1 * b + l0;
        lemma_limb_step(l3, l2, rg);
        lemma_limb_step(h2, l1, rg);
        lemma_limb_step(h1, l0, rg);
        assert(a2 == h2 % rg);
        assert(a1 == h1 % rg);
        assert(a0 == h0 % rg);
        assert(h0 == limbs_value(limbs@)) by (nonlinear_arith)
            requires
                h2 == l3 * b + l2,
                h1 == h2 * b + l1,
                h0 == h1 * b + l0,
                limbs_value(limbs@) == l0 + b * (l1 + b * (l2 + b * l3)),
        ;
    }
    a0 as u64
}

/// What a channel holds: the rolling state and the two message logs.
pub struct ChannelView {
    pub state: Seq<char>,
    pub proof: Seq<Seq<u8>>,
    pub compressed_proof: Seq<Seq<u8>>,
}

/// The channel after the prover has sent `message`.
pub open spec fn after_send(c: ChannelView, message: Seq<u8>) -> ChannelView {
    ChannelView {
        state: sha256_hex(c.state + hex_chars(message)),
        proof: c.proof.push(message),
        compressed_proof: c.compressed_proof.push(message),
    }
}

/// The integer in `[min, max]` that the state of `c` determines.
pub open spec fn drawn_int(c: ChannelView, min: int, max: int) -> int {
    min + hex_value(c.state) % (max - min + 1)
}

/// The channel after an integer in `[min, max]` was drawn from it.
pub open spec fn after_receive_int(c: ChannelView, min: int, max: int, record: bool) -> ChannelView {
    ChannelView {
        state: sha256_hex(c.state),
        proof: if record {
            c.proof.push(be_bytes(drawn_int(c, min, max), 8))
        } else {
            c.proof
        },
        compressed_proof: c.compressed_proof,
    }
}

/// A Fiat-Shamir transcript: a rolling hash state that absorbs the prover's
/// messages and yields the verifier's challenges.
#[derive(Debug, Clone)]
pub struct Channel<const MODULUS: u64> {
    /// Every message and every recorded challenge, in order.
    pub proof: Vec<Vec<u8>>,
    /// The messages the prover sent, in order.
    pub compressed_proof: Vec<Vec<u8>>,
    /// The rolling state: empty at first, then a hexadecimal digest.
    pub state: String,
}

impl<const MODULUS: u64> View for Channel<MODULUS> {
    type V = ChannelView;

    open spec fn view(&self) -> ChannelView {
        ChannelView {
            state: self.state@,
            proof: byte_strings(self.proof@),
            compressed_proof: byte_strings(self.compressed_proof@),
        }
    }
}

impl<const MODULUS: u64> Channel<MODULUS> {
    /// The state is empty or a digest: at most 64 hexadecimal digits.
    pub open spec fn wf(&self) -> bool {
        is_hex_string(self.state@) && self.state@.len() <= 64
    }

    /// A channel that has seen nothing.
    pub fn new() -> (r: Self)
        ensures
            r@.state == Seq::<char>::empty(),
            r@.proof == Seq::<Seq<u8>>::empty(),
            r@.compressed_proof == Seq::<Seq<u8>>::empty(),
            r.wf(),
    {
        let r = Channel { proof: Vec::new(), compressed_proof: Vec::new(), state: String::new() };
        assert(r@.proof =~= Seq::<Seq<u8>>::empty());
        assert(r@.compressed_proof =~= Seq::<Seq<u8>>::empty());
        r
    }

    /// Absorbs a message of the prover: the state becomes the digest of the
    /// old state followed by the message in hexadecimal, and the message
    /// joins both logs.
    pub fn send(&mut self, message: &[u8])
        ensures
            final(self)@ == after_send(old(self)@, message@),
            final(self).wf(),
    {
        let old_state = self.state.clone();
        let encoded = hex_encode(message);
        let concatenated = old_state.concat(encoded.as_str());
        self.state = sha256_hex_digest(concatenated);
        self.proof.push(slice_to_vec(message));
        self.compressed_proof.push(slice_to_vec(message));
        proof {
            assert(final(self)@.proof =~= old(self)@.proof.push(message@));
            assert(final(self)@.compressed_proof =~= old(self)@.compressed_proof.push(message@));
        }
    }

    /// Draws a field element: the state read as a number and reduced modulo
    /// `MODULUS`. The state moves on to its own digest, and the number joins
    /// the full log as eight big-endian bytes.
    pub fn receive_random_field_element(&mut self) -> (r: FieldElement<MODULUS>)
        requires
            old(self).wf(),
            MODULUS > 0,
        ensures
            r@ == drawn_int(old(self)@, 0, MODULUS - 1),
            r.wf(),
            final(self)@ == after_receive_int(old(self)@, 0, MODULUS - 1, true),
            final(self).wf(),
    {
        let num = self.draw(0, MODULUS - 1);
        let field_elem = FieldElement::new(num);
        let bytes = word_to_be_bytes(num);
        self.proof.push(slice_to_vec(bytes.as_slice()));
        proof {
            lemma_small_mod(num as nat, MODULUS as nat);
            assert(final(self)@.proof =~= old(self)@.proof.push(be_bytes(num as int, 8)));
            assert(final(self)@.compressed_proof =~= old(self)@.compressed_proof);
        }
        field_elem
    }

    /// Draws an integer in `[min, max]`: `min` plus the state read as a
    /// number and reduced modulo the size of the range. The state moves on
    /// to its own digest. With `show_in_proof` the integer joins the full
    /// log as eight big-endian bytes.
    pub fn receive_random_int(&mut self, min: usize, max: usize, show_in_proof: bool) -> (r: usize)
        requires
            old(self).wf(),
            min <= max,
        ensures
            r == drawn_int(old(self)@, min as int, max as int),
            min <= r <= max,
            final(self)@ == after_receive_int(old(self)@, min as int, max as int, show_in_proof),
            final(self).wf(),
    {
        let num = self.draw(min as u64, max as u64);
        if show_in_proof {
            let bytes = word_to_be_bytes(num);
            self.proof.push(slice_to_vec(bytes.as_slice()));
        }
        proof {
            if show_in_proof {
                assert(final(self)@.proof =~= old(self)@.proof.push(be_bytes(num as int, 8)));
            } else {
                assert(final(self)@.proof =~= old(self)@.proof);
            }
            assert(final(self)@.compressed_proof =~= old(self)@.compressed_proof);
        }
        num as usize
    }

    /// The number that the state determines in `[min, max]`; the state
    /// moves on to its own digest and the logs stay as they are.
    fn draw(&mut self, min: u64, max: u64) -> (r: u64)
        requires
            old(self).wf(),
            min <= max,
        ensures
            r == drawn_int(old(self)@, min as int, max as int),
            min <= r <= max,
            final(self).state@ == sha256_hex(old(self).state@),
            final(self).proof == old(self).proof,
            final(self).compressed_proof == old(self).compressed_proof,
            final(self).wf(),
    {
        let limbs = match hex_to_limbs(self.state.as_str()) {
            Some(l) => l,
            None => [0u64, 0u64, 0u64, 0u64],
        };
        let range: u128 = (max - min) as u128 + 1;
        let offset = limbs_mod(&limbs, range);
        proof {
            lemma_mod_bound(hex_value(self.state@), range as int);
        }
        let old_state = self.state.clone();
        self.state = sha256_hex_digest(old_state);
        min + offset
    }

    /// The number of bytes in the full log.
    pub fn proof_size(&self) -> (n: usize)
        requires
            total_len(self@.proof) <= usize::MAX,
        ensures
            n == total_len(self@.proof),
    {
        sum_of_lengths(&self.proof)
    }

    /// The number of bytes in the log of sent messages.
    pub fn compressed_proof_size(&self) -> (n: usize)
        requires
            total_len(self@.compressed_proof) <= usize::MAX,
        ensures
            n == total_len(self@.compressed_proof),
    {
        sum_of_lengths(&self.compressed_proof)
    }
}

/// The lengths only grow along a list of messages.
proof fn lemma_total_len_prefix(messages: Seq<Seq<u8>>, k: int)
    requires
        0 <= k <= messages.len(),
    ensures
        0 <= total_len(messages.take(k)) <= total_len(messages),
    decreases messages.len() - k,
{
    if k < messages.len() {
        lemma_total_len_prefix(messages, k + 1);
        assert(messages.take(k + 1).drop_last() =~= messages.take(k));
        lemma_total_len_nonnegative(messages.take(k));
    } else {
        assert(messages.take(k) =~= messages);
        lemma_total_len_nonnegative(messages);
    }
}

proof fn lemma_total_len_nonnegative(messages: Seq<Seq<u8>>)
    ensures
        0 <= total_len(messages),
    decreases messages.len(),
{
    if messages.len() > 0 {
        lemma_total_len_nonnegative(messages.drop_last());
    }
}

fn sum_of_lengths(messages: &Vec<Vec<u8>>) -> (n: usize)
    requires
        total_len(byte_strings(messages@)) <= usize::MAX,
    ensures
        n == total_len(byte_strings(messages@)),
{
    let ghost all = byte_strings(messages@);
    let mut n: usize = 0;
    let mut i: usize = 0;
    while i < messages.len()
        invariant
            all == byte_strings(messages@),
            total_len(all) <= usize::MAX,
            i <= messages@.len(),
            n == total_len(all.take(i as int)),
        decreases messages@.len() - i,
    {
        proof {
            lemma_total_len_prefix(all, i + 1);
            assert(all.take(i + 1).drop_last() =~= all.take(i as int));
            assert(all.take(i + 1).last() == messages@[i as int]@);
        }
        n = n + messages[i].len();
        i = i + 1;
    }
    assert(all.take(i as int) =~= all);
    n
}

/// One call on a channel.
pub enum ChannelOp {
    /// `send` with this message.
    Send(Seq<u8>),
    /// `receive_random_field_element`.
    ReceiveFieldElement,
    /// `receive_random_int` with these bounds, recorded or not.
    ReceiveInt { min: int, max: int, record: bool },
}

/// The channel after the calls `ops`, in order, and the values that the
/// receiving calls among them returned.
pub open spec fn replay(c: ChannelView, ops: Seq<ChannelOp>, m: int) -> (ChannelView, Seq<int>)
    decreases ops.len(),
{
    if ops.len() == 0 {
        (c, Seq::empty())
    } else {
        let (before, drawn) = replay(c, ops.drop_last(), m);
        match ops.last() {
            ChannelOp::Send(message) => (after_send(before, message), drawn),
            ChannelOp::ReceiveFieldElement => (
                after_receive_int(before, 0, m - 1, true),
                drawn.push(drawn_int(before, 0, m - 1)),
            ),
            ChannelOp::ReceiveInt { min, max, record } => (
                after_receive_int(before, min, max, record),
                drawn.push(drawn_int(before, min, max)),
            ),
        }
    }
}

/// Two channels in the same state that are driven by the same calls, with
/// the same arguments and in the same order, end with the same transcripts
/// and state, and draw the same values on the way.
pub proof fn law_replay_is_deterministic<const MODULUS: u64>(
    a: Channel<MODULUS>,
    b: Channel<MODULUS>,
    ops: Seq<ChannelOp>,
)
    requires
        a@ == b@,
    ensures
        replay(a@, ops, MODULUS as int) == replay(b@, ops, MODULUS as int),
{
}

/// Every call moves a channel as `replay` says: a replayed call on the
/// view is the call on the channel.
pub proof fn law_replay_step(c: ChannelView, ops: Seq<ChannelOp>, op: ChannelOp, m: int)
    ensures
        replay(c, ops.push(op), m).0 == (match op {
            ChannelOp::Send(message) => after_send(replay(c, ops, m).0, message),
            ChannelOp::ReceiveFieldElement => after_receive_int(
                replay(c, ops, m).0,
                0,
                m - 1,
                true,
            ),
            ChannelOp::ReceiveInt { min, max, record } => after_receive_int(
                replay(c, ops, m).0,
                min,
                max,
                record,
            ),
        }),
{
    assert(ops.push(op).drop_last() =~= ops);
}

} // verus!
