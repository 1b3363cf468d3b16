use alloy::hex;
use alloy::primitives::U256;
use stark_101::channel::channel::limbs_mod;
use stark_101::channel::Channel;
use stark_101::fields::FieldElement;

fn state_number(state: &str) -> U256 {
    U256::from_str_radix(state, 16).unwrap()
}

#[test]
fn a_new_channel_is_empty() {
    let channel = Channel::<7>::new();
    assert!(channel.proof.is_empty());
    assert!(channel.compressed_proof.is_empty());
    assert_eq!(channel.state, "");
    assert_eq!(channel.proof_size(), 0);
    assert_eq!(channel.compressed_proof_size(), 0);
}

#[test]
fn send_hashes_the_state_followed_by_the_message_in_hex() {
    let mut channel = Channel::<7>::new();
    channel.send(&[1, 2, 255]);
    let first = sha256::digest("0102ff");
    assert_eq!(channel.state, first);
    channel.send(b"abc");
    assert_eq!(channel.state, sha256::digest(format!("{}{}", first, hex::encode(b"abc"))));
    assert_eq!(channel.proof, vec![vec![1, 2, 255], b"abc".to_vec()]);
    assert_eq!(channel.compressed_proof, vec![vec![1, 2, 255], b"abc".to_vec()]);
    assert_eq!(channel.proof_size(), 6);
    assert_eq!(channel.compressed_proof_size(), 6);
}

#[test]
fn known_digest_of_the_empty_message() {
    let mut channel = Channel::<7>::new();
    channel.send(&[]);
    assert_eq!(
        channel.state,
        "e3b0c44298fc1c149afbf4c8996fb92427ae41e4649b934ca495991b7852b855"
    );
}

#[test]
fn random_int_is_the_state_reduced_into_the_range() {
    let mut channel = Channel::<7>::new();
    channel.send(b"seed");
    let before = channel.state.clone();
    let drawn = channel.receive_random_int(10, 109, true);
    let expected = 10 + (state_number(&before) % U256::from(100u64)).into_limbs()[0] as usize;
    assert_eq!(drawn, expected);
    assert!((10..=109).contains(&drawn));
    assert_eq!(channel.state, sha256::digest(before));
    assert_eq!(channel.proof.len(), 2);
    assert_eq!(channel.proof[1], (drawn as u64).to_be_bytes().to_vec());
    assert_eq!(channel.compressed_proof.len(), 1);
}

#[test]
fn random_int_is_recorded_only_on_request() {
    let mut channel = Channel::<7>::new();
    channel.send(b"seed");
    let before = channel.proof.clone();
    channel.receive_random_int(0, 1000, false);
    assert_eq!(channel.proof, before);
    channel.receive_random_int(0, 1000, true);
    assert_eq!(channel.proof.len(), before.len() + 1);
}

#[test]
fn random_int_over_the_full_word_range() {
    let mut channel = Channel::<7>::new();
    channel.send(b"wide");
    let before = channel.state.clone();
    let drawn = channel.receive_random_int(0, usize::MAX, false);
    assert_eq!(drawn as u64, state_number(&before).into_limbs()[0]);
    let mut other = Channel::<7>::new();
    other.send(b"wide");
    assert_eq!(other.receive_random_int(5, 5, false), 5);
}

#[test]
fn a_fresh_channel_draws_the_lower_bound() {
    let mut channel = Channel::<7>::new();
    assert_eq!(channel.receive_random_int(3, 9, false), 3);
    assert_eq!(channel.state, sha256::digest(""));
}

#[test]
fn field_element_is_the_state_reduced_modulo_the_modulus() {
    let mut channel = Channel::<1000003>::new();
    channel.send(b"seed");
    let before = channel.state.clone();
    let element = channel.receive_random_field_element();
    let expected = (state_number(&before) % U256::from(1000003u64)).into_limbs()[0];
    assert_eq!(element.value(), expected);
    assert_eq!(channel.state, sha256::digest(before));
    assert_eq!(channel.proof[1], expected.to_be_bytes().to_vec());
    let decoded = FieldElement::<1000003>::from_bytes(&channel.proof[1]).unwrap();
    assert_eq!(decoded, element);
    assert_eq!(channel.compressed_proof.len(), 1);
    assert_eq!(channel.proof_size(), 12);
    assert_eq!(channel.compressed_proof_size(), 4);
}

#[test]
fn identical_calls_give_identical_transcripts_and_values() {
    let mut a = Channel::<97>::new();
    let mut b = Channel::<97>::new();
    let mut drawn_a = Vec::new();
    let mut drawn_b = Vec::new();
    for round in 0..5u8 {
        a.send(&[round, 7, 9]);
        b.send(&[round, 7, 9]);
        drawn_a.push(a.receive_random_field_element().value() as usize);
        drawn_b.push(b.receive_random_field_element().value() as usize);
        drawn_a.push(a.receive_random_int(0, 4095, round % 2 == 0));
        drawn_b.push(b.receive_random_int(0, 4095, round % 2 == 0));
    }
    assert_eq!(drawn_a, drawn_b);
    assert_eq!(a.proof, b.proof);
    assert_eq!(a.compressed_proof, b.compressed_proof);
    assert_eq!(a.state, b.state);
}

#[test]
fn different_messages_give_different_challenges() {
    let mut a = Channel::<1000003>::new();
    let mut b = Channel::<1000003>::new();
    a.send(&[1]);
    b.send(&[2]);
    assert_ne!(a.state, b.state);
    assert_ne!(
        a.receive_random_int(0, usize::MAX, false),
        b.receive_random_int(0, usize::MAX, false)
    );
}

#[test]
fn limbs_are_reduced_as_one_number() {
    // 2^64 + 5 modulo 7: 2^64 = 2 (mod 7), so the number is 0 (mod 7)
    assert_eq!(limbs_mod(&[5, 1, 0, 0], 7), 0);
    assert_eq!(limbs_mod(&[12, 0, 0, 0], 5), 2);
    let all = [u64::MAX; 4];
    let expected = (U256::MAX % U256::from(1000003u64)).into_limbs()[0];
    assert_eq!(limbs_mod(&all, 1000003), expected);
    assert_eq!(limbs_mod(&[9, 8, 7, 6], 1u128 << 64), 9);
}
