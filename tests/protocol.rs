use robust_verifiable_dp::client::Client;
use robust_verifiable_dp::constants::{PROVER_NUM, SHARE_LEN, SPLIT_LEN};
use robust_verifiable_dp::group::Scalar;
use robust_verifiable_dp::prover::Prover;
use robust_verifiable_dp::public_parameters::PublicParameters;
use robust_verifiable_dp::replicated::{recon_shares, ReplicaCommitment, ReplicaSecret, ReplicaShare};
use robust_verifiable_dp::share_store::{MemoryShareStore, ShareStore};
use robust_verifiable_dp::sigma_or::create_proof_1;
use robust_verifiable_dp::sign::{gen_keys, public_key, verify_sig, MySignature};
use robust_verifiable_dp::user_store::{MemoryUserStore, UserStore};
use robust_verifiable_dp::util::random_scalars;
use robust_verifiable_dp::verification::Verifier;

fn keys() -> (Vec<[u8; 32]>, Vec<[u8; 32]>) {
    let mut sks = Vec::new();
    let mut pks = Vec::new();
    for _ in 0..PROVER_NUM {
        let (sk, pk) = gen_keys();
        sks.push(sk);
        pks.push(pk);
    }
    (sks, pks)
}

fn provers_with_bits(pp: &PublicParameters, sks: &[[u8; 32]], pks: &Vec<[u8; 32]>, bits: &[Vec<Vec<bool>>]) -> Vec<Prover<MemoryShareStore>> {
    let mut provers = Vec::new();
    for i in 0..PROVER_NUM {
        let mut bls = Vec::new();
        for l in 0..SHARE_LEN {
            bls.push(random_scalars(bits[i][l].len()));
        }
        provers.push(Prover::from_bits(i, pp, sks[i], pks, MemoryShareStore::new(), bits[i].clone(), bls));
    }
    provers
}

fn zero_bits(width: usize) -> Vec<Vec<Vec<bool>>> {
    vec![vec![vec![false; width]; SHARE_LEN]; PROVER_NUM]
}

fn no_mask(width: usize) -> Vec<Vec<bool>> {
    vec![vec![false; width]; SHARE_LEN]
}

fn value(x: u64) -> Scalar {
    Scalar::from_u64(x)
}

fn bytes_of(v: &[Scalar]) -> Vec<[u8; 32]> {
    v.iter().map(|s| s.bytes).collect()
}

fn same_scalar(a: &Scalar, b: &Scalar) -> bool {
    a.bytes == b.bytes
}

/// Runs the aggregation of every prover and the verifier's checks; returns
/// the noised shares and whether the verifier accepted each.
fn aggregate(
    provers: &mut Vec<Prover<MemoryShareStore>>,
    broad: &MemoryUserStore,
    pp: &PublicParameters,
    pks: &Vec<[u8; 32]>,
    mask: &Vec<Vec<bool>>,
) -> (Vec<ReplicaShare>, Vec<bool>, Vec<Vec<u64>>) {
    let mut coms_v_ks = Vec::new();
    for p in provers.iter() {
        coms_v_ks.push(p.get_coms_v_k());
    }
    let verifier = Verifier::new(coms_v_ks, pks.clone());
    let agg_com = verifier.check_all_users_and_sum_coms(broad, pp);
    let mut noised = Vec::new();
    let mut accepted = Vec::new();
    let mut ids_seen = Vec::new();
    for (i, p) in provers.iter_mut().enumerate() {
        let ids = p.check_all_users(broad);
        let agg = p.sum_share(broad, &ids);
        let n = p.add_noise_from_rand_bits(mask, agg);
        accepted.push(verifier.handle_prover_share(i, n.copy(), agg_com.copy(), mask, pp));
        noised.push(n);
        ids_seen.push(ids);
    }
    (noised, accepted, ids_seen)
}

#[test]
fn replicated_test_recon() {
    let secret = ReplicaSecret::new(value(1));
    let splits = secret.get_splits();
    let mut sum = value(0);
    for i in 0..SPLIT_LEN {
        sum = sum.add(&splits[i]);
    }
    assert!(same_scalar(&sum, &value(1)));
    let mut shares = Vec::new();
    for i in 1..PROVER_NUM {
        shares.push(secret.get_share(i))
    }
    let res = recon_shares(shares);
    assert!(same_scalar(&res.unwrap(), &value(1)));
}

#[test]
fn scenario_two_honest_clients_no_mask() {
    let pp = PublicParameters::new(b"seed");
    let (sks, pks) = keys();
    let mut broad = MemoryUserStore::new();
    let mut provers = provers_with_bits(&pp, &sks, &pks, &zero_bits(4));
    for (id, x) in [(1u64, true), (2u64, false)] {
        let client = Client::new(id, x, &pp, pks.clone());
        assert!(client.send_proof_coms(&mut broad));
        for j in 0..PROVER_NUM {
            assert!(provers[j].handle_client(client.send_share(j), &mut broad));
        }
        for j in 0..PROVER_NUM {
            let sig = broad.get_user(id).unwrap().signatures[j].as_ref().unwrap().copy();
            assert!(verify_sig(&client.get_coms(), &pks[j], &sig));
            assert_eq!(public_key(&sks[j]), pks[j]);
        }
        // a second acknowledgement on the same slot is refused
        assert!(!provers[0].handle_client(client.send_share(0), &mut broad));
    }
    let (noised, accepted, ids) = aggregate(&mut provers, &broad, &pp, &pks, &no_mask(4));
    assert_eq!(accepted, vec![true, true, true]);
    assert_eq!(ids[0], vec![1, 2]);
    let y = recon_shares(noised).unwrap();
    assert!(same_scalar(&y, &value(1)));
}

#[test]
fn scenario_prover_refuses_ack_client_reveals() {
    let pp = PublicParameters::new(b"seed");
    let (sks, pks) = keys();
    let mut broad = MemoryUserStore::new();
    let mut provers = provers_with_bits(&pp, &sks, &pks, &zero_bits(0));
    let client = Client::new(7, true, &pp, pks.clone());
    assert!(client.send_proof_coms(&mut broad));
    for j in 1..PROVER_NUM {
        assert!(provers[j].handle_client(client.send_share(j), &mut broad));
    }
    assert!(client.reveal_share(&mut broad));
    let user = broad.get_user(7).unwrap();
    assert_eq!(bytes_of(&user.share[0].as_ref().unwrap().share), bytes_of(&client.send_share(0).1.share));
    assert!(user.signatures[0].is_none());
    assert!(user.signatures[1].is_some());
    assert!(user.share[0].is_some());
    assert!(user.share[1].is_none());
    assert!(user.share[2].is_none());
    assert_eq!(broad.check_all_users(&pks, &pp), vec![7]);
    let (noised, accepted, ids) = aggregate(&mut provers, &broad, &pp, &pks, &no_mask(0));
    assert_eq!(accepted, vec![true, true, true]);
    assert_eq!(ids[1], vec![7]);
    assert_eq!(ids[2], vec![7]);
    // prover 0 took the revealed share into its store
    let absorbed = provers[0].share_store.get(7).unwrap();
    assert_eq!(bytes_of(&absorbed.share), bytes_of(&client.send_share(0).1.share));
    assert_eq!(absorbed.ind, 0);
    let y = recon_shares(vec![noised[1].copy(), noised[2].copy()]).unwrap();
    assert!(same_scalar(&y, &value(1)));
}

#[test]
fn scenario_out_of_range_input_is_rejected() {
    let pp = PublicParameters::new(b"seed");
    let (sks, pks) = keys();
    let mut broad = MemoryUserStore::new();
    let mut provers = provers_with_bits(&pp, &sks, &pks, &zero_bits(0));
    let secret = ReplicaSecret::new(value(2));
    let coms = ReplicaCommitment::new(secret.commit(*pp.get_commit_base()));
    let proof = create_proof_1(pp.get_commit_base(), secret.get_sum_r());
    assert!(broad.new_user(3, coms.copy(), proof));
    for j in 0..PROVER_NUM {
        assert!(!provers[j].handle_client((3, secret.get_share(j)), &mut broad));
        assert!(broad.get_user(3).unwrap().signatures[j].is_none());
        assert!(provers[j].share_store.get(3).is_none());
    }
    // a client without an entry is refused too
    assert!(!provers[0].handle_client((4, secret.get_share(0)), &mut broad));
    assert!(provers[0].share_store.get(4).is_none());
    assert_eq!(broad.check_all_users(&pks, &pp), Vec::<u64>::new());
    let (noised, accepted, _) = aggregate(&mut provers, &broad, &pp, &pks, &no_mask(0));
    assert_eq!(accepted, vec![true, true, true]);
    let y = recon_shares(noised).unwrap();
    assert!(same_scalar(&y, &value(0)));
}

#[test]
fn scenario_forged_ack_drops_client() {
    let pp = PublicParameters::new(b"seed");
    let (sks, pks) = keys();
    let mut broad = MemoryUserStore::new();
    let mut provers = provers_with_bits(&pp, &sks, &pks, &zero_bits(0));
    let honest = Client::new(1, true, &pp, pks.clone());
    let victim = Client::new(2, true, &pp, pks.clone());
    for c in [&honest, &victim] {
        assert!(c.send_proof_coms(&mut broad));
    }
    for j in 0..PROVER_NUM {
        assert!(provers[j].handle_client(honest.send_share(j), &mut broad));
    }
    for j in 1..PROVER_NUM {
        assert!(provers[j].handle_client(victim.send_share(j), &mut broad));
    }
    let mut forged = vec![0u8; 64];
    for (k, b) in forged.iter_mut().enumerate() {
        *b = (k as u8).wrapping_mul(37).wrapping_add(11);
    }
    assert!(broad.sig_to_user(2, MySignature(forged), 0));
    assert_eq!(broad.check_all_users(&pks, &pp), vec![1]);
    let (noised, accepted, _) = aggregate(&mut provers, &broad, &pp, &pks, &no_mask(0));
    assert_eq!(accepted, vec![true, true, true]);
    let y = recon_shares(noised).unwrap();
    assert!(same_scalar(&y, &value(1)));
}

#[test]
fn scenario_biased_prover_is_masked() {
    let width = 8;
    let pp = PublicParameters::new(b"seed");
    let (sks, pks) = keys();
    let mut broad = MemoryUserStore::new();
    let mut bits = zero_bits(width);
    bits[1] = vec![vec![true; width]; SHARE_LEN];
    let mut provers = provers_with_bits(&pp, &sks, &pks, &bits);
    let client = Client::new(5, true, &pp, pks.clone());
    assert!(client.send_proof_coms(&mut broad));
    for j in 0..PROVER_NUM {
        assert!(provers[j].handle_client(client.send_share(j), &mut broad));
    }
    let mut mask = no_mask(width);
    for l in 0..SHARE_LEN {
        for b in 0..width {
            mask[l][b] = b % 2 == 0;
        }
    }
    let ids = provers[1].check_all_users(&broad);
    let agg = provers[1].sum_share(&broad, &ids);
    let noised = provers[1].add_noise_from_rand_bits(&mask, agg.copy());
    for l in 0..SHARE_LEN {
        let expected = agg.share[l].add(&value((width / 2) as u64));
        assert!(same_scalar(&noised.share[l], &expected));
    }
    let (_, accepted, _) = aggregate(&mut provers, &broad, &pp, &pks, &mask);
    assert_eq!(accepted, vec![true, true, true]);
}

#[test]
fn scenario_no_noise_two_ones() {
    let pp = PublicParameters::new(b"seed");
    let (sks, pks) = keys();
    let mut broad = MemoryUserStore::new();
    let mut provers = provers_with_bits(&pp, &sks, &pks, &zero_bits(0));
    for id in [10u64, 11u64] {
        let client = Client::new(id, true, &pp, pks.clone());
        assert!(client.send_proof_coms(&mut broad));
        for j in 0..PROVER_NUM {
            assert!(provers[j].handle_client(client.send_share(j), &mut broad));
        }
    }
    let mask = no_mask(0);
    let (noised, accepted, _) = aggregate(&mut provers, &broad, &pp, &pks, &mask);
    assert_eq!(accepted, vec![true, true, true]);
    for (i, p) in provers.iter_mut().enumerate() {
        let ids = p.check_all_users(&broad);
        let agg = p.check_all_users_and_sum_share(&broad);
        let direct = p.sum_share(&broad, &ids);
        for l in 0..SHARE_LEN {
            assert!(same_scalar(&noised[i].share[l], &agg.share[l]));
            assert!(same_scalar(&noised[i].blindings[l], &agg.blindings[l]));
            assert!(same_scalar(&direct.share[l], &agg.share[l]));
        }
    }
    for (a, b) in [(0, 1), (0, 2), (1, 2)] {
        let y = recon_shares(vec![noised[a].copy(), noised[b].copy()]).unwrap();
        assert!(same_scalar(&y, &value(2)));
    }
}

#[test]
fn dishonest_noised_share_is_caught() {
    let width = 3;
    let pp = PublicParameters::new(b"seed");
    let (sks, pks) = keys();
    let mut broad = MemoryUserStore::new();
    let mut provers = provers_with_bits(&pp, &sks, &pks, &zero_bits(width));
    let client = Client::new(1, false, &pp, pks.clone());
    assert!(client.send_proof_coms(&mut broad));
    for j in 0..PROVER_NUM {
        assert!(provers[j].handle_client(client.send_share(j), &mut broad));
    }
    let mask = vec![vec![true, false, true]; SHARE_LEN];
    let mut coms_v_ks = Vec::new();
    for p in provers.iter() {
        coms_v_ks.push(p.get_coms_v_k());
    }
    let verifier = Verifier::new(coms_v_ks, pks.clone());
    let agg_com = verifier.check_all_users_and_sum_coms(&broad, &pp);
    let ids = provers[0].check_all_users(&broad);
    let agg = provers[0].sum_share(&broad, &ids);
    let honest = provers[0].add_noise_from_rand_bits(&mask, agg.copy());
    assert!(verifier.handle_prover_share(0, honest.copy(), agg_com.copy(), &mask, &pp));
    // without the noise the share no longer opens the masked commitment
    assert!(!verifier.handle_prover_share(0, agg.copy(), agg_com.copy(), &mask, &pp));
    // a share checked under another prover's index is refused
    assert!(!verifier.handle_prover_share(1, honest.copy(), agg_com.copy(), &mask, &pp));
    // public bits that do not cover the committed bits are refused
    assert!(!verifier.handle_prover_share(0, honest.copy(), agg_com.copy(), &no_mask(1), &pp));
}

#[test]
fn prover_new_commits_to_bits() {
    let pp = PublicParameters::new(b"seed");
    let (sks, pks) = keys();
    let p = Prover::new(2, &pp, sks[2], &pks, MemoryShareStore::new());
    let coms = p.get_coms_v_k();
    assert_eq!(coms.len(), SHARE_LEN);
    for l in 0..SHARE_LEN {
        assert_eq!(coms[l].len(), robust_verifiable_dp::constants::BITS_NUM);
        for b in 0..coms[l].len() {
            assert!(p.proofs_v_k[l][b].verify(pp.get_commit_base(), coms[l][b]));
        }
    }
}

#[test]
fn client_reveal_without_entry_fails() {
    let pp = PublicParameters::new(b"seed");
    let (_, pks) = keys();
    let mut broad = MemoryUserStore::new();
    let client = Client::new(9, false, &pp, pks);
    assert!(!client.reveal_share(&mut broad));
    assert!(client.send_proof_coms(&mut broad));
    assert!(!client.send_proof_coms(&mut broad));
    let coms = client.get_coms();
    assert_eq!(coms.com.len(), SPLIT_LEN);
    for j in 0..SPLIT_LEN {
        assert_eq!(coms.com[j].bytes, client.coms.com[j].bytes);
    }
}

#[test]
fn verifier_checks_published_bit_proofs() {
    let width = 3;
    let pp = PublicParameters::new(b"seed");
    let (sks, pks) = keys();
    let mut bits = zero_bits(width);
    bits[0][1] = vec![true, false, true];
    let provers = provers_with_bits(&pp, &sks, &pks, &bits);
    let mut coms_v_ks = Vec::new();
    for p in provers.iter() {
        coms_v_ks.push(p.get_coms_v_k());
    }
    let verifier = Verifier::new(coms_v_ks, pks.clone());
    for i in 0..PROVER_NUM {
        assert!(verifier.check_bit_proofs(i, &provers[i].proofs_v_k, &pp));
    }
    // another prover's proofs do not fit
    assert!(!verifier.check_bit_proofs(1, &provers[0].proofs_v_k, &pp));
    assert!(!verifier.check_bit_proofs(PROVER_NUM, &provers[0].proofs_v_k, &pp));
    let mut tampered = provers[2].proofs_v_k.clone();
    tampered[0][0].v1 = tampered[0][0].v1.add(&value(1));
    assert!(!verifier.check_bit_proofs(2, &tampered, &pp));
}
