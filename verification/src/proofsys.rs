use vstd::prelude::*;

verus! {

/// The pluggable proof capability: produces and checks a non-interactive
/// proof bound to an address hash, a message digest and a nonce. A real
/// scheme must accept exactly the artifacts its own `prove` produced for
/// the same triple.
pub trait ProofSystem {
    fn prove(addr_hash_b64: &str, msg_digest_b64: &str, nonce_b64: &str) -> Vec<u8>;

    fn verify(addr_hash_b64: &str, msg_digest_b64: &str, nonce_b64: &str, proof: &[u8]) -> bool;
}

/// The placeholder scheme: it emits one fixed artifact and accepts only
/// that artifact. It carries no cryptographic meaning and must never
/// stand in for a real scheme at a trust boundary.
pub struct MockProof;

/// The fixed artifact the placeholder emits.
pub open spec fn mock_artifact() -> Seq<u8> {
    seq![
        0x6du8, 0x6fu8, 0x63u8, 0x6bu8, 0x2du8, 0x70u8, 0x72u8, 0x6fu8, 0x6fu8, 0x66u8, 0x2du8,
        0x6fu8, 0x6bu8,
    ]
}

impl ProofSystem for MockProof {
    /// Returns the fixed artifact, whatever the triple.
    fn prove(_addr_hash_b64: &str, _msg_digest_b64: &str, _nonce_b64: &str) -> (r: Vec<u8>)
        ensures
            r@ == mock_artifact(),
    {
        let mut v: Vec<u8> = Vec::new();
        v.push(0x6d);
        v.push(0x6f);
        v.push(0x63);
        v.push(0x6b);
        v.push(0x2d);
        v.push(0x70);
        v.push(0x72);
        v.push(0x6f);
        v.push(0x6f);
        v.push(0x66);
        v.push(0x2d);
        v.push(0x6f);
        v.push(0x6b);
        proof {
            assert(v@ =~= mock_artifact());
        }
        v
    }

    /// Accepts exactly the fixed artifact, whatever the triple.
    fn verify(
        _addr_hash_b64: &str,
        _msg_digest_b64: &str,
        _nonce_b64: &str,
        proof: &[u8],
    ) -> (r: bool)
        ensures
            r == (proof@ == mock_artifact()),
    {
        let expected = MockProof::prove(_addr_hash_b64, _msg_digest_b64, _nonce_b64);
        if proof.len() != expected.len() {
            proof {
                if proof@ == mock_artifact() {
                    assert(proof@.len() == expected@.len());
                }
            }
            return false;
        }
        let n = proof.len();
        let mut i: usize = 0;
        while i < n
            invariant
                0 <= i <= n,
                n == proof@.len() == expected@.len(),
                expected@ == mock_artifact(),
                forall|m: int| 0 <= m < i ==> proof@[m] == expected@[m],
            decreases n - i,
        {
            if proof[i] != expected[i] {
                proof {
                    if proof@ == mock_artifact() {
                        assert(proof@[i as int] == expected@[i as int]);
                    }
                }
                return false;
            }
            i = i + 1;
        }
        proof {
            assert(proof@ =~= expected@);
        }
        true
    }
}

} // verus!
