use robust_verifiable_dp::commitment::CommitBase;
use robust_verifiable_dp::constants::{ind_arr, PROVER_NUM, SHARE_LEN, SPLIT_LEN};
use robust_verifiable_dp::error::CryptographicError;
use robust_verifiable_dp::group::{base_mul, identity, minus, plus, point_eq, times, Point, Scalar};
use robust_verifiable_dp::hash::hash_bit_vec;
use robust_verifiable_dp::hash_xor::{convert_to_bit_array, hash_T_to_bit_array, msb_bit_array, xor_commitments};
use robust_verifiable_dp::morra::MorraBroadCast;
use robust_verifiable_dp::msg_structs::{ShareProof, SigOrShare, Transcript};
use robust_verifiable_dp::public_parameters::PublicParameters;
use robust_verifiable_dp::replicated::{recon_shares, ReplicaCommitment, ReplicaSecret, ReplicaShare};
use robust_verifiable_dp::shamirlib::{gcd, get_denominator};
use robust_verifiable_dp::sigma_or::{
    build_proof_0, build_proof_1, create_proof_0, create_proof_1, sigma_or_hash, sigma_or_verify,
};
use robust_verifiable_dp::sign::{gen_keys, sign_verified_deal, verify_sig, MySignature};
use robust_verifiable_dp::user_store::{MemoryUserStore, UserStore};
use robust_verifiable_dp::util::{random_scalar, scalar_one, scalar_zero};

fn v(x: u64) -> Scalar {
    Scalar::from_u64(x)
}

fn same(a: &Scalar, b: &Scalar) -> bool {
    a.bytes == b.bytes
}

fn base() -> CommitBase {
    CommitBase::new(b"seed")
}

/// The little-endian bytes of the group order.
fn order_bytes() -> [u8; 32] {
    let mut b = [0u8; 32];
    let hex = "edd3f55c1a631258d69cf7a2def9de1400000000000000000000000000000010";
    for i in 0..32 {
        b[i] = u8::from_str_radix(&hex[2 * i..2 * i + 2], 16).unwrap();
    }
    b
}

#[test]
fn scalar_arithmetic_matches_integers() {
    assert!(same(&v(2).add(&v(3)), &v(5)));
    assert!(same(&v(6).mul(&v(7)), &v(42)));
    assert!(same(&v(9).sub(&v(4)), &v(5)));
    let wrapped = v(2).sub(&v(3));
    assert!(!same(&wrapped, &v(2)));
    assert!(same(&wrapped.add(&v(3)), &v(2)));
    assert!(v(4).same_value(&v(1).add(&v(3))));
    assert!(!v(4).same_value(&v(5)));
    assert!(same(&scalar_one(), &v(1)));
    assert!(same(&scalar_zero(), &v(0)));
    assert_eq!(v(1).bytes[0], 1);
    let inv = v(3).invert();
    assert!(same(&inv.mul(&v(3)), &v(1)));
    assert!(!same(&inv, &v(3)));
}

#[test]
fn scalar_reduction_wraps_at_the_order() {
    assert!(same(&Scalar::from_bytes_mod_order(order_bytes()), &v(0)));
    let mut plus_one = order_bytes();
    plus_one[0] += 1;
    assert!(same(&Scalar::from_bytes_mod_order(plus_one), &v(1)));
    // an unreduced scalar has the value of its residue
    assert!((Scalar { bytes: plus_one }).same_value(&v(1)));
}

#[test]
fn point_operations_follow_the_group_law() {
    let g = base_mul(&v(1));
    assert_eq!(identity().bytes, [0u8; 32]);
    assert_eq!(base_mul(&v(0)).bytes, [0u8; 32]);
    assert_eq!(plus(&g, &g).bytes, base_mul(&v(2)).bytes);
    assert_eq!(times(&g, &v(3)).bytes, base_mul(&v(3)).bytes);
    assert_eq!(minus(&base_mul(&v(5)), &g).bytes, base_mul(&v(4)).bytes);
    assert_eq!(plus(&g, &identity()).bytes, g.bytes);
    assert!(point_eq(&plus(&base_mul(&v(2)), &base_mul(&v(3))), &base_mul(&v(5))));
    assert!(!point_eq(&g, &identity()));
    assert!(g.is_valid());
    assert!(!(Point { bytes: [0xffu8; 32] }).is_valid());
}

#[test]
fn hashing_to_a_point_is_deterministic() {
    let a = Point::from_seed(b"seed");
    let b = Point::from_seed(b"seed");
    let c = Point::from_seed(b"other");
    assert_eq!(a.bytes, b.bytes);
    assert_ne!(a.bytes, c.bytes);
    assert!(a.is_valid());
    let bs = base();
    assert_ne!(bs.h.bytes, bs.g.bytes);
    assert_eq!(bs.g.bytes, base_mul(&v(1)).bytes);
    assert_eq!(PublicParameters::new(b"seed").get_h().bytes, bs.get_h().bytes);
}

#[test]
fn challenge_hash_depends_on_every_input() {
    let b = base();
    let c = b.commit(v(1), v(2));
    let d0 = b.commit(v(3), v(4));
    let d1 = b.commit(v(5), v(6));
    let e = sigma_or_hash(&c, &d0, &d1);
    assert!(same(&e, &sigma_or_hash(&c, &d0, &d1)));
    assert!(!same(&e, &sigma_or_hash(&d0, &c, &d1)));
    assert!(!same(&e, &sigma_or_hash(&c, &d1, &d0)));
    assert!(!same(&e, &v(0)));
}

#[test]
fn commitment_homomorphism_on_values() {
    let b = base();
    let c1 = b.commit(v(3), v(10));
    let c2 = b.commit(v(4), v(20));
    assert_eq!(plus(&c1, &c2).bytes, b.commit(v(7), v(30)).bytes);
    assert!(b.vrfy(v(7), v(30), plus(&c1, &c2)));
    assert!(!b.vrfy(v(7), v(31), plus(&c1, &c2)));
    let m = random_scalar();
    let r = random_scalar();
    assert!(b.vrfy(m, r, b.commit(m, r)));
}

#[test]
fn sigma_or_completeness_for_both_bits() {
    let b = base();
    for _ in 0..3 {
        let r = random_scalar();
        let p0 = create_proof_0(&b, r);
        assert!(sigma_or_verify(&b, &p0, b.commit(v(0), r)));
        assert!(p0.verify(&b, b.commit(v(0), r)));
        let p1 = create_proof_1(&b, r);
        assert!(sigma_or_verify(&b, &p1, b.commit(v(1), r)));
    }
}

#[test]
fn sigma_or_soundness_against_the_other_bit() {
    let b = base();
    let r = random_scalar();
    let p0 = create_proof_0(&b, r);
    assert!(!sigma_or_verify(&b, &p0, b.commit(v(1), r)));
    let p1 = create_proof_1(&b, r);
    assert!(!sigma_or_verify(&b, &p1, b.commit(v(0), r)));
    assert!(!sigma_or_verify(&b, &p0, b.commit(v(2), r)));
    let mut bad = p0;
    bad.v0 = bad.v0.add(&v(1));
    assert!(!sigma_or_verify(&b, &bad, b.commit(v(0), r)));
    let mut bad_point = p0;
    bad_point.d0 = Point { bytes: [0xffu8; 32] };
    assert!(!sigma_or_verify(&b, &bad_point, b.commit(v(0), r)));
}

#[test]
fn sigma_or_built_from_chosen_draws() {
    let b = base();
    let r = v(77);
    let c0 = b.commit(v(0), r);
    let p0 = build_proof_0(&b, r, c0, v(5), v(6), v(7));
    assert!(same(&p0.v1, &v(5)));
    assert!(same(&p0.e1, &v(6)));
    assert!(same(&p0.e0.add(&p0.e1), &p0.e));
    assert_eq!(p0.d0.bytes, times(&b.h, &v(7)).bytes);
    assert!(sigma_or_verify(&b, &p0, c0));
    let c1 = b.commit(v(1), r);
    let p1 = build_proof_1(&b, r, c1, v(8), v(9), v(10));
    assert!(sigma_or_verify(&b, &p1, c1));
    assert!(!sigma_or_verify(&b, &p1, c0));
}

#[test]
fn rss_reconstructs_from_any_cover() {
    let s = random_scalar();
    let secret = ReplicaSecret::new(s);
    for (a, c) in [(0, 1), (0, 2), (1, 2)] {
        let y = recon_shares(vec![secret.get_share(a), secret.get_share(c)]).unwrap();
        assert!(same(&y, &secret.get_s()));
    }
    let all: Vec<ReplicaShare> = (0..PROVER_NUM).map(|i| secret.get_share(i)).collect();
    assert!(same(&recon_shares(all).unwrap(), &s));
    for i in 0..PROVER_NUM {
        assert!(recon_shares(vec![secret.get_share(i)]).is_none());
    }
    assert!(recon_shares(Vec::new()).is_none());
}

#[test]
fn rss_split_from_randomness() {
    let rs = vec![v(10), v(20)];
    let bl = vec![v(1), v(2), v(3)];
    let secret = ReplicaSecret::from_randomness(v(100), &rs, &bl);
    assert!(same(&secret.splits[0], &v(10)));
    assert!(same(&secret.splits[1], &v(20)));
    assert!(same(&secret.splits[2], &v(70)));
    assert!(same(&secret.get_sum_r(), &v(6)));
    let share = secret.get_share(2);
    assert_eq!(share.get_ind(), 2);
    assert!(same(&share.get_share()[0], &v(20)));
    assert!(same(&share.get_share()[1], &v(70)));
    let zero = ReplicaSecret::new_zero();
    assert!(same(&zero.get_s(), &v(0)));
}

#[test]
fn rss_threshold_privacy_by_shifting() {
    // prover 0 does not hold position 2; prover 2 does not hold position 0
    let bl = vec![v(1), v(2), v(3)];
    let a = ReplicaSecret::from_randomness(v(5), &vec![v(10), v(20)], &bl);
    let b = ReplicaSecret::from_randomness(v(9), &vec![v(10), v(20)], &bl);
    for l in 0..SHARE_LEN {
        assert!(same(&a.get_share(0).share[l], &b.get_share(0).share[l]));
    }
    let c = ReplicaSecret::from_randomness(v(9), &vec![v(14), v(20)], &bl);
    for l in 0..SHARE_LEN {
        assert!(same(&a.get_share(2).share[l], &c.get_share(2).share[l]));
    }
}

#[test]
fn share_additivity_on_values() {
    let a = ReplicaSecret::from_randomness(v(1), &vec![v(3), v(4)], &vec![v(1), v(1), v(1)]);
    let b = ReplicaSecret::from_randomness(v(0), &vec![v(5), v(6)], &vec![v(2), v(2), v(2)]);
    let sum = ReplicaSecret::from_randomness(v(1), &vec![v(8), v(10)], &vec![v(3), v(3), v(3)]);
    for i in 0..PROVER_NUM {
        let s = a.get_share(i).add(&b.get_share(i));
        assert_eq!(s.ind, i);
        let t = sum.get_share(i);
        for l in 0..SHARE_LEN {
            assert!(same(&s.share[l], &t.share[l]));
            assert!(same(&s.blindings[l], &t.blindings[l]));
        }
    }
}

#[test]
fn share_checks_against_commitments() {
    let b = base();
    let secret = ReplicaSecret::new(v(1));
    let coms = ReplicaCommitment::new(secret.commit(b));
    let share = secret.get_share(1);
    assert!(share.check_com(&b, coms.copy()));
    let other = ReplicaSecret::new(v(1)).get_share(1);
    assert!(!other.check_com(&b, coms.copy()));
    let mut sum = coms.ind_value(0);
    for j in 1..SPLIT_LEN {
        sum = plus(&sum, &coms.ind_value(j));
    }
    assert_eq!(coms.get_sum().bytes, sum.bytes);
    assert_eq!(coms.get_sum().bytes, b.commit(v(1), secret.get_sum_r()).bytes);
    let noise = vec![b.commit(v(2), v(3)), b.commit(v(4), v(5))];
    let noised = share.add_noise(vec![v(2), v(4)], vec![v(3), v(5)]);
    assert!(noised.check_com_with_noise(&b, coms.copy(), noise.clone()));
    assert!(!share.check_com_with_noise(&b, coms.copy(), noise));
    let z = ReplicaCommitment::new_zero();
    let twice = coms.copy().add(z);
    assert_eq!(twice.to_bytes(), coms.to_bytes());
    assert_eq!(coms.to_bytes().len(), 32 * SPLIT_LEN);
    let d = ReplicaShare::default();
    assert_eq!(d.ind, 0);
    assert!(same(&d.share[0], &v(0)));
}

#[test]
fn masked_commitments_flip_the_bit() {
    let b = base();
    let coms = vec![b.commit(v(0), v(5)), b.commit(v(1), v(6))];
    let masked = xor_commitments(&coms, &vec![true, false], b.g, b.h);
    assert_eq!(masked[0].bytes, b.commit(v(1), v(1).sub(&v(5))).bytes);
    assert_eq!(masked[1].bytes, coms[1].bytes);
}

#[test]
fn ack_signature_binds_the_commitment() {
    let b = base();
    let (sk, pk) = gen_keys();
    let (_, other_pk) = gen_keys();
    let coms = ReplicaCommitment::new(ReplicaSecret::new(v(1)).commit(b));
    let sig = sign_verified_deal(&sk, &coms);
    assert_eq!(sig.0.len(), 64);
    assert!(verify_sig(&coms, &pk, &sig));
    assert!(!verify_sig(&coms, &other_pk, &sig));
    let changed = ReplicaCommitment::new(vec![coms.com[0], coms.com[1], plus(&coms.com[2], &b.g)]);
    assert!(!verify_sig(&changed, &pk, &sig));
    let mut flipped = sig.copy();
    flipped.0[3] ^= 1;
    assert!(!verify_sig(&coms, &pk, &flipped));
    assert!(!verify_sig(&coms, &pk, &MySignature(vec![1, 2, 3])));
    assert!(MySignature::default() == MySignature(vec![0u8; 64]));
    assert!(sig != MySignature::default());
}

#[test]
fn bulletin_slots_are_write_once() {
    let b = base();
    let secret = ReplicaSecret::new(v(0));
    let coms = ReplicaCommitment::new(secret.commit(b));
    let proof = create_proof_0(&b, secret.get_sum_r());
    let mut broad = MemoryUserStore::new();
    assert!(broad.new_user(4, coms.copy(), proof));
    assert!(!broad.new_user(4, coms.copy(), proof));
    assert!(!broad.new_user(5, ReplicaCommitment::new(vec![Point { bytes: [0xff; 32] }; SPLIT_LEN]), proof));
    assert!(broad.new_user(2, coms.copy(), proof));
    assert_eq!(broad.iter_all_users(), &vec![2, 4]);
    assert!(broad.sig_to_user(4, MySignature::default(), 1));
    assert!(!broad.sig_to_user(4, MySignature::default(), 1));
    assert!(!broad.sig_to_user(4, MySignature::default(), PROVER_NUM));
    assert!(!broad.sig_to_user(8, MySignature::default(), 0));
    assert!(broad.upload_share(4, secret.get_share(0), 0));
    assert!(!broad.upload_share(4, secret.get_share(0), 0));
    assert!(!broad.upload_share(9, secret.get_share(0), 0));
    let (c, p) = broad.get_user_commitment_proof(4).unwrap();
    assert_eq!(c.to_bytes(), coms.to_bytes());
    assert!(same(&p.e, &proof.e));
    assert!(broad.get_user_commitment_proof(3).is_none());
    assert!(broad.get_user(3).is_none());
}

#[test]
fn entry_validity_needs_every_slot() {
    let pp = PublicParameters::new(b"seed");
    let b = *pp.get_commit_base();
    let mut sks = Vec::new();
    let mut pks = Vec::new();
    for _ in 0..PROVER_NUM {
        let (sk, pk) = gen_keys();
        sks.push(sk);
        pks.push(pk);
    }
    let secret = ReplicaSecret::new(v(1));
    let coms = ReplicaCommitment::new(secret.commit(b));
    let proof = create_proof_1(&b, secret.get_sum_r());
    let mut broad = MemoryUserStore::new();
    assert!(broad.new_user(1, coms.copy(), proof));
    assert!(broad.sig_to_user(1, sign_verified_deal(&sks[0], &coms), 0));
    assert!(broad.sig_to_user(1, sign_verified_deal(&sks[1], &coms), 1));
    let user = broad.get_user(1).unwrap();
    assert_eq!(user.check_signature(&pks), vec![true, true, false]);
    assert!(!user.check_whole(&pks, &pp));
    // a share revealed in the wrong slot does not count
    assert!(broad.upload_share(1, secret.get_share(1), 2));
    assert!(!broad.get_user(1).unwrap().check_whole(&pks, &pp));
    let mut broad2 = MemoryUserStore::new();
    assert!(broad2.new_user(1, coms.copy(), proof));
    assert!(broad2.sig_to_user(1, sign_verified_deal(&sks[0], &coms), 0));
    assert!(broad2.sig_to_user(1, sign_verified_deal(&sks[1], &coms), 1));
    assert!(broad2.upload_share(1, secret.get_share(2), 2));
    let user = broad2.get_user(1).unwrap();
    assert_eq!(user.check_share(&pp), vec![false, false, true]);
    assert!(user.check_whole(&pks, &pp));
    let (ok, sh) = user.check_whole_lazy(&pks, &pp, 2);
    assert!(ok);
    assert_eq!(sh.unwrap().ind, 2);
    let (ok, sh) = user.check_whole_lazy(&pks, &pp, 0);
    assert!(ok);
    assert!(sh.is_none());
    assert_eq!(broad2.check_all_users(&pks, &pp), vec![1]);
}

#[test]
fn messages_verify_their_parts() {
    let pp = PublicParameters::new(b"seed");
    let b = *pp.get_commit_base();
    let (sk, pk) = gen_keys();
    let pks = vec![pk, pk, pk];
    let secret = ReplicaSecret::new(v(0));
    let coms = ReplicaCommitment::new(secret.commit(b));
    let proof = create_proof_0(&b, secret.get_sum_r());
    let sp = ShareProof { coms: coms.copy(), share: secret.get_share(1), proof };
    assert!(sp.verify(&b));
    let bad = ShareProof { coms: coms.copy(), share: ReplicaSecret::new(v(0)).get_share(1), proof };
    assert!(!bad.verify(&b));
    let slots = vec![
        SigOrShare::Signature(sign_verified_deal(&sk, &coms)),
        SigOrShare::Share(secret.get_share(1)),
        SigOrShare::Signature(sign_verified_deal(&sk, &coms)),
    ];
    let t = Transcript::new(1, coms.copy(), slots, proof);
    assert!(t.verify(&b, &pks));
    let wrong_slot = vec![
        SigOrShare::Share(secret.get_share(1)),
        SigOrShare::Share(secret.get_share(1)),
        SigOrShare::Share(secret.get_share(2)),
    ];
    assert!(!Transcript::new(1, coms.copy(), wrong_slot, proof).verify(&b, &pks));
    let short = vec![SigOrShare::Share(secret.get_share(0))];
    assert!(!Transcript::new(1, coms.copy(), short, proof).verify(&b, &pks));
}

#[test]
fn public_coin_commit_then_reveal() {
    let pp = PublicParameters::new(b"seed");
    let b = *pp.get_commit_base();
    let ms = [v(3), v(4), v(5)];
    let rs = [v(7), v(8), v(9)];
    let mut coin = MorraBroadCast::new(pp);
    // out of turn: ignored
    coin.commit(1, b.commit(ms[1], rs[1]));
    assert_eq!(coin.round_com, 0);
    for i in 0..PROVER_NUM {
        coin.commit(i, b.commit(ms[i], rs[i]));
    }
    assert_eq!(coin.round_com, PROVER_NUM);
    assert!(coin.get_morra_scalar().is_none());
    // wrong opening: ignored
    coin.reveal_opening(2, v(1), rs[2]);
    assert!(coin.ms[2].is_none());
    // out of order: ignored
    coin.reveal_opening(0, ms[0], rs[0]);
    assert!(coin.ms[0].is_none());
    for i in (0..PROVER_NUM).rev() {
        coin.reveal_opening(i, ms[i], rs[i]);
    }
    assert!(same(&coin.get_morra_scalar().unwrap(), &v(12)));
    // a second reveal of the last prover does not overwrite
    coin.reveal_opening(0, v(100), rs[0]);
    assert!(same(&coin.get_morra_scalar().unwrap(), &v(12)));
}

#[test]
fn hash_bits_of_known_values() {
    assert_eq!(convert_to_bit_array(0b1011, 4), vec![true, true, false, true]);
    assert_eq!(convert_to_bit_array(u64::MAX, 0), Vec::<bool>::new());
    assert_eq!(msb_bit_array(1u64 << 63, 2), vec![true, false]);
    assert_eq!(msb_bit_array(1, 64)[63], true);
    assert_eq!(msb_bit_array(1, 100).len(), 64);
    let bits = hash_bit_vec(&42u64, 10);
    assert_eq!(bits.len(), 10);
    assert_eq!(hash_bit_vec(&42u64, 10), bits);
    assert_eq!(hash_T_to_bit_array(7u32, 5).len(), 5);
    assert_eq!(hash_T_to_bit_array(7u32, 80).len(), 64);
}

#[test]
fn gcd_and_denominator() {
    assert_eq!(gcd(12, 18), 6);
    assert_eq!(gcd(7, 0), 7);
    assert_eq!(gcd(0, 5), 5);
    assert_eq!(get_denominator(&[1, 2, 3]), 2);
    assert_eq!(get_denominator(&[1, 2, 3, 4]), 6);
    assert_eq!(get_denominator(&[]), 1);
    // denominators 12, 8, 24
    assert_eq!(get_denominator(&[0, 2, 6]), 24);
    // denominators 21, 12, 24, 168
    assert_eq!(get_denominator(&[0, 1, 3, 7]), 168);
    assert_eq!(get_denominator(&[7, 3, 1, 0]), 168);
}

#[test]
fn error_keeps_its_message() {
    let e = CryptographicError::new("invalid proof");
    assert_eq!(e.message(), "invalid proof");
}

#[test]
fn layout_table() {
    let expected = [[0, 1], [0, 2], [1, 2]];
    for i in 0..PROVER_NUM {
        for j in 0..SHARE_LEN {
            assert_eq!(ind_arr(i, j), expected[i][j]);
        }
    }
}

#[test]
fn commitment_store_sums_what_it_holds() {
    let b = base();
    let mut store = robust_verifiable_dp::datastore::MemoryCommitmentStore::new();
    let a = ReplicaCommitment::new(vec![b.commit(v(1), v(2)), b.commit(v(3), v(4)), b.commit(v(5), v(6))]);
    let c = ReplicaCommitment::new(vec![b.commit(v(10), v(20)), b.commit(v(30), v(40)), b.commit(v(50), v(60))]);
    store.put(8, a.copy());
    store.put(3, c.copy());
    store.put(8, a.copy());
    assert_eq!(store.get_all_uids(), vec![8, 3]);
    let s = store.sum();
    assert_eq!(s.com[0].bytes, b.commit(v(11), v(22)).bytes);
    assert_eq!(s.com[1].bytes, b.commit(v(33), v(44)).bytes);
    assert_eq!(s.com[2].bytes, b.commit(v(55), v(66)).bytes);
}

#[test]
fn hash_bits_of_commitments() {
    let b = base();
    let rows = vec![vec![b.commit(v(1), v(2))], vec![b.commit(v(3), v(4)), b.g]];
    let bits = robust_verifiable_dp::hash_xor::hash_to_bit_array(&rows, 12);
    assert_eq!(bits.len(), 12);
    assert_eq!(robust_verifiable_dp::hash_xor::hash_to_bit_array(&rows, 12), bits);
    assert_eq!(robust_verifiable_dp::hash_xor::hash_to_bit_array(&rows, 0).len(), 0);
}
