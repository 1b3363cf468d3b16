use stark_101::channel::Channel;
use stark_101::error::StarkError;
use stark_101::fields::FieldElement;
use stark_101::fri::fri_commit::{
    evaluate_on_domain, next_fri_domain, next_fri_layer, next_fri_polynomial, sibling_position,
};
use stark_101::fri::fri_verify::{bytes_equal, fold_value, verify_fri, verify_fri_report};
use stark_101::fri::{decommit_fri, decommit_fri_layers, fri_commit, CosetFri};
use stark_101::merkle::MerkleTree;
use stark_101::polynomial::Polynomial;

type F17 = FieldElement<17>;

fn f17(v: u64) -> F17 {
    F17::new(v)
}

/// The coset 3 * <2> of the subgroup of order 8 of the nonzero residues modulo 17.
fn domain17() -> Vec<F17> {
    CosetFri::new(f17(3), f17(2), 8).generate_coset_domain()
}

fn poly17(values: &[u64]) -> Polynomial<17> {
    Polynomial::new(values.iter().map(|&v| f17(v)).collect())
}

fn prove(poly: Polynomial<17>, num_queries: usize, max_index: usize) -> (Channel<17>, usize) {
    let mut channel = Channel::<17>::new();
    let proof = fri_commit(poly, domain17(), &mut channel).unwrap();
    decommit_fri(num_queries, max_index, &proof.fri_layers, &proof.fri_merkles, &mut channel);
    (channel, proof.fri_layers.len())
}

#[test]
fn coset_domain_is_offset_times_powers_of_omega() {
    let values: Vec<u64> = domain17().iter().map(|x| x.value()).collect();
    assert_eq!(values, vec![3, 6, 12, 7, 14, 11, 5, 10]);
    let coset = CosetFri::new(f17(3), f17(2), 8);
    assert_eq!(coset.domain_size, 8);
    assert_eq!(coset.offset, f17(3));
    assert_eq!(coset.omega, f17(2));
    assert!(CosetFri::new(f17(3), f17(2), 0).generate_coset_domain().is_empty());
}

#[test]
fn next_domain_squares_the_first_half() {
    let next = next_fri_domain(&domain17());
    let values: Vec<u64> = next.iter().map(|x| x.value()).collect();
    assert_eq!(values, vec![9, 2, 8, 15]);
    let coset = CosetFri::new(f17(3), f17(2), 8);
    assert_eq!(coset.next_coset_domain(&domain17()), next);
    let last: Vec<u64> = next_fri_domain(&next).iter().map(|x| x.value()).collect();
    assert_eq!(last, vec![13, 4]);
    assert!(next_fri_domain(&[f17(5)]).is_empty());
}

#[test]
fn next_layer_folds_the_polynomial_and_evaluates_it_on_the_next_domain() {
    let poly = poly17(&[1, 2, 3, 4]);
    let beta = f17(5);
    let folded = next_fri_polynomial(&poly, beta);
    // (1 + 5*2) + (3 + 5*4) x = 11 + 6x (mod 17)
    let coefficients: Vec<u64> = folded.coefficients.iter().map(|c| c.value()).collect();
    assert_eq!(coefficients, vec![11, 6]);
    let (p, d, e) = next_fri_layer(&poly, &domain17(), beta);
    assert_eq!(p, folded);
    assert_eq!(d, next_fri_domain(&domain17()));
    assert_eq!(e, evaluate_on_domain(&folded, &d));
    let values: Vec<u64> = e.iter().map(|x| x.value()).collect();
    // 11 + 6x at 9, 2, 8, 15
    assert_eq!(values, vec![14, 6, 8, 16]);
}

#[test]
fn fold_of_opened_values_is_the_folded_polynomial_at_the_square() {
    let poly = poly17(&[4, 0, 7, 9, 2]);
    let beta = f17(11);
    let folded = poly.fold(beta);
    for x in 1..17u64 {
        let x = f17(x);
        let v = poly.evaluate(x);
        let s = poly.evaluate(-x);
        assert_eq!(fold_value(v, s, beta, x).unwrap(), folded.evaluate(x * x));
    }
    assert_eq!(fold_value(f17(1), f17(2), beta, f17(0)), Err(StarkError::ArithmeticError));
    let one = FieldElement::<2>::new(1);
    assert_eq!(fold_value(one, one, one, one), Err(StarkError::ConfigurationError));
}

#[test]
fn sibling_is_half_a_layer_away() {
    assert_eq!(sibling_position(1, 8), 5);
    assert_eq!(sibling_position(6, 8), 2);
    assert_eq!(sibling_position(0, 2), 1);
    assert_eq!(sibling_position(2, 3), 0);
    assert_eq!(sibling_position(usize::MAX - 1, usize::MAX), usize::MAX / 2 - 1);
}

#[test]
fn commit_of_a_cubic_over_eight_points_modulo_seven() {
    // three committed layers of 8, 4 and 2 values, then the constant
    type F7 = FieldElement<7>;
    let domain: Vec<F7> = (0..8u64).map(|i| F7::new(3).pow(i)).collect();
    let poly = Polynomial::<7>::new(vec![F7::new(1), F7::new(2), F7::new(3), F7::new(4)]);
    let mut channel = Channel::<7>::new();
    let proof = fri_commit(poly.clone(), domain.clone(), &mut channel).unwrap();
    let lengths: Vec<usize> = proof.fri_layers.iter().map(|l| l.len()).collect();
    assert_eq!(lengths, vec![8, 4, 2]);
    assert_eq!(proof.fri_merkles.len(), 3);
    assert!(proof.final_poly.degree <= 0);
    assert_eq!(proof.fri_layers[0], evaluate_on_domain(&poly, &domain));
    // three roots, two coefficients and the constant
    assert_eq!(channel.proof.len(), 6);
    assert_eq!(channel.compressed_proof.len(), 4);
    for k in 0..3 {
        assert_eq!(channel.proof[2 * k], proof.fri_merkles[k].root().into_bytes());
    }
    let constant = proof.final_poly.evaluate(F7::zero());
    assert_eq!(channel.proof[5], constant.to_bytes().to_vec());
    assert!(proof.fri_layers[2].iter().all(|v| *v == constant));
}

#[test]
fn commit_folds_with_the_coefficients_drawn_from_the_channel() {
    let poly = poly17(&[2, 3, 5, 7]);
    let mut channel = Channel::<17>::new();
    let proof = fri_commit(poly.clone(), domain17(), &mut channel).unwrap();
    let mut replay = Channel::<17>::new();
    replay.send(&channel.proof[0]);
    let beta0 = replay.receive_random_field_element();
    assert_eq!(channel.proof[1], beta0.to_bytes().to_vec());
    let p1 = poly.fold(beta0);
    let d1 = next_fri_domain(&domain17());
    assert_eq!(proof.fri_layers[1], evaluate_on_domain(&p1, &d1));
    let tree = MerkleTree::new(proof.fri_layers[1].clone()).unwrap();
    assert_eq!(channel.proof[2], tree.root().into_bytes());
}

#[test]
fn commit_of_a_constant_has_one_layer() {
    let mut channel = Channel::<17>::new();
    let proof = fri_commit(poly17(&[9]), domain17(), &mut channel).unwrap();
    assert_eq!(proof.fri_layers.len(), 1);
    assert_eq!(channel.proof.len(), 2);
    assert_eq!(channel.proof[1], f17(9).to_bytes().to_vec());
    let mut zero_channel = Channel::<17>::new();
    let zero = fri_commit(Polynomial::zero(), domain17(), &mut zero_channel).unwrap();
    assert_eq!(zero.fri_layers.len(), 1);
    assert_eq!(zero_channel.proof[1], vec![0u8; 8]);
}

#[test]
fn commit_fails_when_the_domain_runs_out() {
    let mut channel = Channel::<17>::new();
    let empty: Vec<F17> = vec![];
    assert_eq!(
        fri_commit(poly17(&[1, 2]), empty, &mut channel).err(),
        Some(StarkError::ShapeError)
    );
    assert!(channel.proof.is_empty());
    let mut short = Channel::<17>::new();
    assert_eq!(
        fri_commit(poly17(&[2, 3, 5, 7]), vec![f17(3), f17(14)], &mut short).err(),
        Some(StarkError::ShapeError)
    );
}

#[test]
fn decommit_sends_values_and_paths_of_both_positions() {
    let mut channel = Channel::<17>::new();
    let proof = fri_commit(poly17(&[2, 3, 5, 7]), domain17(), &mut channel).unwrap();
    let before = channel.proof.len();
    decommit_fri_layers(6, &proof.fri_layers, &proof.fri_merkles, &mut channel);
    // three layers of 8, 4 and 2 values: four messages each
    assert_eq!(channel.proof.len(), before + 12);
    let opened = &channel.proof[before..];
    // layer 0: position 6, sibling 2
    assert_eq!(opened[0], proof.fri_layers[0][6].to_bytes().to_vec());
    assert_eq!(opened[1], proof.fri_merkles[0].get_authentication_path(6).unwrap());
    assert_eq!(opened[2], proof.fri_layers[0][2].to_bytes().to_vec());
    assert_eq!(opened[3], proof.fri_merkles[0].get_authentication_path(2).unwrap());
    // layer 1: position 2, sibling 0
    assert_eq!(opened[4], proof.fri_layers[1][2].to_bytes().to_vec());
    assert_eq!(opened[6], proof.fri_layers[1][0].to_bytes().to_vec());
    // layer 2: position 0, sibling 1
    assert_eq!(opened[8], proof.fri_layers[2][0].to_bytes().to_vec());
    assert_eq!(opened[10], proof.fri_layers[2][1].to_bytes().to_vec());
    assert_eq!(opened[11], proof.fri_merkles[2].get_authentication_path(1).unwrap());
}

#[test]
fn decommit_records_every_query_index() {
    let (channel, layers) = prove(poly17(&[2, 3, 5, 7]), 3, 7);
    assert_eq!(layers, 3);
    // header of 6, then per query the index and 12 openings
    assert_eq!(channel.proof.len(), 6 + 3 * 13);
    for q in 0..3 {
        let index = &channel.proof[6 + 13 * q];
        assert_eq!(index.len(), 8);
        assert!(u64::from_be_bytes(index.as_slice().try_into().unwrap()) <= 7);
    }
}

#[test]
fn an_honest_transcript_is_accepted() {
    let (channel, layers) = prove(poly17(&[2, 3, 5, 7]), 4, 7);
    assert_eq!(layers, 3);
    assert!(verify_fri(4, 7, layers, &channel, &domain17()));
    let report = verify_fri_report(4, 7, layers, &channel, &domain17());
    assert!(report.accepted);
    assert_eq!(report.first_failure, None);
    assert!(report.failures.is_empty());
}

#[test]
fn honest_transcripts_of_many_polynomials_are_accepted() {
    for seed in 0..60u64 {
        let poly = poly17(&[seed % 17, (seed * 7 + 1) % 17, (seed * 3 + 2) % 17, (seed / 4) % 17]);
        let mut channel = Channel::<17>::new();
        let proof = fri_commit(poly, domain17(), &mut channel).unwrap();
        let layers = proof.fri_layers.len();
        decommit_fri(3, 100, &proof.fri_layers, &proof.fri_merkles, &mut channel);
        let report = verify_fri_report(3, 100, layers, &channel, &domain17());
        assert!(report.accepted, "seed {} failed at {:?}", seed, report.failures);
    }
}

#[test]
fn a_flipped_byte_in_any_recorded_evaluation_is_rejected() {
    let (channel, layers) = prove(poly17(&[2, 3, 5, 7]), 2, 7);
    let mut flipped = 0;
    for q in 0..2 {
        for k in 0..3 {
            for which in [0usize, 2] {
                let position = 6 + 13 * q + 1 + 4 * k + which;
                for byte in 0..8 {
                    let mut tampered = Channel::<17>::new();
                    tampered.proof = channel.proof.clone();
                    tampered.proof[position][byte] ^= 1;
                    assert!(!verify_fri(2, 7, layers, &tampered, &domain17()));
                    flipped += 1;
                }
            }
        }
    }
    assert_eq!(flipped, 96);
}

#[test]
fn a_flipped_byte_anywhere_is_rejected_and_located() {
    let (channel, layers) = prove(poly17(&[2, 3, 5, 7]), 2, 7);
    for position in 0..channel.proof.len() {
        let mut tampered = Channel::<17>::new();
        tampered.proof = channel.proof.clone();
        let last = tampered.proof[position].len() - 1;
        tampered.proof[position][last] ^= 1;
        let report = verify_fri_report(2, 7, layers, &tampered, &domain17());
        assert!(!report.accepted, "position {}", position);
        assert!(report.first_failure.is_some());
    }
    // a wrong value in the second query, first layer, is reported there and only there
    let mut tampered = Channel::<17>::new();
    tampered.proof = channel.proof.clone();
    tampered.proof[6 + 13 + 2][3] ^= 0x10;
    let report = verify_fri_report(2, 7, layers, &tampered, &domain17());
    assert_eq!(report.first_failure, Some(StarkError::VerificationFailure));
    assert!(report.failures.contains(&(1, 0)));
    assert!(report.failures.iter().all(|&(q, _)| q == 1));
}

#[test]
fn a_truncated_or_misshapen_transcript_is_a_protocol_error() {
    let (channel, layers) = prove(poly17(&[2, 3, 5, 7]), 2, 7);
    let mut truncated = Channel::<17>::new();
    truncated.proof = channel.proof[..channel.proof.len() - 1].to_vec();
    let report = verify_fri_report(2, 7, layers, &truncated, &domain17());
    assert!(!report.accepted);
    assert_eq!(report.first_failure, Some(StarkError::ProtocolError));
    assert!(report.failures.is_empty());
    // the wrong number of queries or layers does not fit the transcript
    assert!(!verify_fri(3, 7, layers, &channel, &domain17()));
    assert!(!verify_fri(2, 7, layers - 1, &channel, &domain17()));
    assert!(!verify_fri(2, 7, 0, &channel, &domain17()));
    let empty = Channel::<17>::new();
    assert_eq!(
        verify_fri_report(2, 7, layers, &empty, &domain17()).first_failure,
        Some(StarkError::ProtocolError)
    );
    // more layers than the domain can be halved into
    assert_eq!(
        verify_fri_report(2, 7, 6, &channel, &domain17()).first_failure,
        Some(StarkError::ShapeError)
    );
}

#[test]
fn another_range_of_indices_is_rejected() {
    let (channel, layers) = prove(poly17(&[2, 3, 5, 7]), 4, 7);
    // with another range the verifier draws other indices than were recorded
    assert!(!verify_fri(4, 1000, layers, &channel, &domain17()));
}

#[test]
fn the_wrong_domain_is_rejected() {
    let (channel, layers) = prove(poly17(&[2, 3, 5, 7]), 4, 7);
    let other = CosetFri::new(f17(5), f17(2), 8).generate_coset_domain();
    assert!(!verify_fri(4, 7, layers, &channel, &other));
}

#[test]
fn byte_strings_are_compared_in_full() {
    assert!(bytes_equal(&[1, 2, 3], &[1, 2, 3]));
    assert!(!bytes_equal(&[1, 2, 3], &[1, 2, 4]));
    assert!(!bytes_equal(&[1, 2, 3], &[1, 2]));
    assert!(bytes_equal(&[], &[]));
}

#[test]
fn no_queries_need_only_the_commit_phase() {
    let (channel, layers) = prove(poly17(&[2, 3, 5, 7]), 0, 7);
    assert_eq!(channel.proof.len(), 6);
    assert!(verify_fri(0, 7, layers, &channel, &domain17()));
}

#[test]
fn a_last_layer_of_one_value_is_checked_against_the_constant() {
    // the two points 13 and -13, and a polynomial of degree one: layers of 2 and 1 values
    let domain = vec![f17(13), f17(4)];
    let mut channel = Channel::<17>::new();
    let proof = fri_commit(poly17(&[3, 5]), domain.clone(), &mut channel).unwrap();
    let lengths: Vec<usize> = proof.fri_layers.iter().map(|l| l.len()).collect();
    assert_eq!(lengths, vec![2, 1]);
    decommit_fri(3, 1, &proof.fri_layers, &proof.fri_merkles, &mut channel);
    // header of 4, then per query the index and the opening of the first layer
    assert_eq!(channel.proof.len(), 4 + 3 * 5);
    assert!(verify_fri(3, 1, 2, &channel, &domain));
    // another constant does not match the fold of the opened values
    let mut tampered = Channel::<17>::new();
    tampered.proof = channel.proof.clone();
    tampered.proof[3][7] ^= 1;
    let report = verify_fri_report(3, 1, 2, &tampered, &domain);
    assert!(!report.accepted);
    assert_eq!(report.failures, vec![(0, 0), (1, 0), (2, 0)]);
}

#[test]
fn a_constant_over_one_point_has_nothing_to_open() {
    let domain = vec![f17(13)];
    let mut channel = Channel::<17>::new();
    let proof = fri_commit(poly17(&[6]), domain.clone(), &mut channel).unwrap();
    assert_eq!(proof.fri_layers.len(), 1);
    decommit_fri(2, 0, &proof.fri_layers, &proof.fri_merkles, &mut channel);
    assert_eq!(channel.proof.len(), 2 + 2);
    assert!(verify_fri(2, 0, 1, &channel, &domain));
    let mut tampered = Channel::<17>::new();
    tampered.proof = channel.proof.clone();
    tampered.proof[3][7] ^= 1;
    let report = verify_fri_report(2, 0, 1, &tampered, &domain);
    assert!(!report.accepted);
    assert_eq!(report.failures, vec![(1, 0)]);
}

#[test]
fn a_polynomial_that_collapses_early_is_still_accepted() {
    // folding 1 + 2x + 3x^2 + 4x^3 with the drawn coefficient leaves a constant at once
    let mut channel = Channel::<17>::new();
    let proof = fri_commit(poly17(&[1, 2, 3, 4]), domain17(), &mut channel).unwrap();
    assert_eq!(proof.fri_layers.len(), 2);
    decommit_fri(3, 7, &proof.fri_layers, &proof.fri_merkles, &mut channel);
    assert!(verify_fri(3, 7, 2, &channel, &domain17()));
}

#[test]
fn the_first_failure_names_its_reason() {
    let (channel, layers) = prove(poly17(&[2, 3, 5, 7]), 2, 7);
    // a recorded index that was not drawn breaks the protocol
    let mut wrong_index = Channel::<17>::new();
    wrong_index.proof = channel.proof.clone();
    wrong_index.proof[6][7] ^= 1;
    let report = verify_fri_report(2, 7, layers, &wrong_index, &domain17());
    assert_eq!(report.first_failure, Some(StarkError::ProtocolError));
    assert_eq!(report.failures[0], (0, 0));
    // so does an opened value that is no encoded element
    let mut short_value = Channel::<17>::new();
    short_value.proof = channel.proof.clone();
    short_value.proof[6 + 1 + 4].pop();
    let report = verify_fri_report(2, 7, layers, &short_value, &domain17());
    assert_eq!(report.first_failure, Some(StarkError::ProtocolError));
    assert_eq!(report.failures[0], (0, 1));
    // a path that does not lead to the root fails verification
    let mut wrong_path = Channel::<17>::new();
    wrong_path.proof = channel.proof.clone();
    wrong_path.proof[6 + 2][0] ^= 1;
    let report = verify_fri_report(2, 7, layers, &wrong_path, &domain17());
    assert_eq!(report.first_failure, Some(StarkError::VerificationFailure));
    assert_eq!(report.failures[0], (0, 0));
}
