use agent_safe_spl::crypto::{
    derive_service_key, hkdf_sha256, hmac_sha256, sha256, sha256_hex, verify_ed25519,
    verify_hash_chain, verify_merkle_proof, MerkleProofStep,
};

#[test]
fn sha256_known_vector() {
    assert_eq!(
        sha256_hex(b"abc"),
        "ba7816bf8f01cfea414140de5dae2223b00361a396177a9cb410ff61f20015ad"
    );
    assert_eq!(
        sha256_hex(b""),
        "e3b0c44298fc1c149afbf4c8996fb92427ae41e4649b934ca495991b7852b855"
    );
}

#[test]
fn hmac_rfc4231_case_1() {
    let key = [0x0bu8; 20];
    let mac = hmac_sha256(&key, b"Hi There");
    assert_eq!(
        hex::encode(&mac),
        "b0344c61d8db38535ca8afceaf0bf12b881dc200c9833da726e9376c2e32cff7"
    );
}

#[test]
fn hmac_rfc4231_case_2() {
    let mac = hmac_sha256(b"Jefe", b"what do ya want for nothing?");
    assert_eq!(
        hex::encode(&mac),
        "5bdcc146bf60754e6a042426089575c75a003f089d2739839dec58b964ec3843"
    );
}

#[test]
fn hkdf_rfc5869_case_1() {
    let ikm = [0x0bu8; 22];
    let salt: Vec<u8> = (0u8..=12).collect();
    let info: Vec<u8> = (0xf0u8..=0xf9).collect();
    let okm = hkdf_sha256(&ikm, &salt, &info, 42);
    assert_eq!(
        hex::encode(&okm),
        "3cb25f25faacd57a90434f64d0362f2a2d2d0a90cf1a5a4c5db02d56ecc4c5bf34007208d5b887185865"
    );
}

#[test]
fn test_ed25519_valid() {
    // RFC 8032 test vector 1: empty message
    let pub_key = "d75a980182b10ab7d54bfed3c964073a0ee172f3daa62325af021a68f707511a";
    let sig = "e5564300c360ac729086e2cc806e828a84877f1eb8e5d974d873e065224901555fb8821590a33bacc61e39701cf9b46bd25bf5f0595bbe24655141438e7a100b";
    assert!(verify_ed25519(b"", sig, pub_key));
}

#[test]
fn test_ed25519_tampered() {
    let pub_key = "d75a980182b10ab7d54bfed3c964073a0ee172f3daa62325af021a68f707511a";
    let sig = "e5564300c360ac729086e2cc806e828a84877f1eb8e5d974d873e065224901555fb8821590a33bacc61e39701cf9b46bd25bf5f0595bbe24655141438e7a100b";
    assert!(!verify_ed25519(b"tampered", sig, pub_key));
    assert!(!verify_ed25519(b"", sig, "zz"));
    assert!(!verify_ed25519(b"", "zz", pub_key));
}

fn merkle_parent(a: &[u8], b: &[u8]) -> Vec<u8> {
    let mut data = a.to_vec();
    data.extend_from_slice(b);
    sha256(&data)
}

#[test]
fn test_merkle_proof() {
    // root over leaves {"a","b","c","d"}, pairwise hashed as a binary tree
    let ha = sha256(b"a");
    let hb = sha256(b"b");
    let hc = sha256(b"c");
    let hd = sha256(b"d");
    let hab = merkle_parent(&ha, &hb);
    let hcd = merkle_parent(&hc, &hd);
    let root = hex::encode(merkle_parent(&hab, &hcd));

    // a valid proof for "b": sibling a on the left, then cd on the right
    let proof_b = vec![
        MerkleProofStep { hash: hex::encode(&ha), position: "left".into() },
        MerkleProofStep { hash: hex::encode(&hcd), position: "right".into() },
    ];
    assert!(verify_merkle_proof("b", &proof_b, &root));

    // the same proof fails against a different root
    let other_root = hex::encode(merkle_parent(&hcd, &hab));
    assert!(!verify_merkle_proof("b", &proof_b, &other_root));

    // and fails for a different leaf
    assert!(!verify_merkle_proof("a", &proof_b, &root));

    // a sibling that is not hex fails
    let bad = vec![MerkleProofStep { hash: "not-hex".into(), position: "left".into() }];
    assert!(!verify_merkle_proof("b", &bad, &root));
}

#[test]
fn test_hash_chain() {
    // commitment = SHA-256^5(seed); a receipt at index k discloses
    // SHA-256^k(seed)
    let seed = sha256(b"chain-seed");
    let chain_length = 5;
    let mut cur = seed.clone();
    for _ in 0..chain_length {
        cur = sha256(&cur);
    }
    let commitment = hex::encode(&cur);

    let mut at2 = seed.clone();
    for _ in 0..2 {
        at2 = sha256(&at2);
    }
    assert!(verify_hash_chain(&commitment, &hex::encode(&at2), 2, chain_length));
    assert!(!verify_hash_chain(&commitment, &hex::encode(&at2), 3, chain_length));
    assert!(!verify_hash_chain(&commitment, &hex::encode(&seed), 2, chain_length));
    // an index beyond the chain length fails rather than crashing
    assert!(!verify_hash_chain(&commitment, &hex::encode(&at2), 9, chain_length));
    // a preimage that is not hex fails
    assert!(!verify_hash_chain(&commitment, "xx-not-hex", 2, chain_length));
}

#[test]
fn derive_service_key_deterministic() {
    let master = "9d61b19deffd5a60ba844af492ec2cc44449c5697b326919703bac031cae7f60";
    let (pub1, priv1) = derive_service_key(master, "alpha.example").unwrap();
    let (pub2, priv2) = derive_service_key(master, "alpha.example").unwrap();
    assert_eq!(pub1, pub2);
    assert_eq!(priv1, priv2);
}

#[test]
fn derive_service_key_domain_separation() {
    let master = "9d61b19deffd5a60ba844af492ec2cc44449c5697b326919703bac031cae7f60";
    let (pub1, priv1) = derive_service_key(master, "alpha.example").unwrap();
    let (pub2, priv2) = derive_service_key(master, "beta.example").unwrap();
    assert_ne!(pub1, pub2);
    assert_ne!(priv1, priv2);
}

#[test]
fn derive_service_key_bad_hex() {
    let err = derive_service_key("not hex!", "alpha.example").unwrap_err();
    assert_eq!(err.0, "invalid master key hex");
}

#[test]
fn generate_keypair_works() {
    let (public, secret) = agent_safe_spl::generate_keypair().unwrap();
    assert_eq!(public.len(), 64);
    assert_eq!(secret.len(), 64);
    let (p2, s2) = agent_safe_spl::generate_keypair().unwrap();
    assert_ne!(secret, s2);
    assert_ne!(public, p2);
}
