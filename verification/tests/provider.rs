use std::time::Instant;

use curve25519_dalek::constants::RISTRETTO_BASEPOINT_POINT;
use curve25519_dalek::scalar::Scalar;
use qtreekem::crypto::{CipherSuiteProvider, CryptoError, HpkePublicKey, HpkeSecretKey};
use rand_core::{OsRng, RngCore};
use sha2::{Digest, Sha512};

struct TestSuite;

impl CipherSuiteProvider for TestSuite {
    fn kdf_extract_size(&self) -> usize {
        32
    }

    fn random_bytes_vec(&self, count: usize) -> Result<Vec<u8>, CryptoError> {
        let mut bytes = vec![0u8; count];
        OsRng.fill_bytes(&mut bytes);
        Ok(bytes)
    }

    fn kem_derive(&self, ikm: &[u8]) -> Result<(HpkeSecretKey, HpkePublicKey), CryptoError> {
        let wide: [u8; 64] = Sha512::digest(ikm).into();
        let secret = Scalar::from_bytes_mod_order_wide(&wide);
        let public = (RISTRETTO_BASEPOINT_POINT * secret).compress();
        Ok((
            HpkeSecretKey { bytes: secret.to_bytes().to_vec() },
            HpkePublicKey { bytes: public.to_bytes().to_vec() },
        ))
    }

    fn kem_generate(&self) -> Result<(HpkeSecretKey, HpkePublicKey), CryptoError> {
        let ikm = self.random_bytes_vec(32)?;
        self.kem_derive(&ikm)
    }
}

#[test]
fn bench_kem_generate() {
    let suite = TestSuite;

    let iterations = 1000;
    let mut times = Vec::with_capacity(iterations);

    for _ in 0..iterations {
        let t0 = Instant::now();

        let (_sk, _pk): (HpkeSecretKey, HpkePublicKey) =
            suite.kem_generate().expect("kem_generate failed");

        times.push(t0.elapsed())
    }

    times.sort_unstable();
    let median = if times.len() % 2 == 1 {
        times[times.len() / 2]
    } else {
        let mid = times.len() / 2;
        (times[mid - 1] + times[mid]) / 2
    };

    let median_ms = median.as_secs_f64() * 1000.0;
    println!("median time = {:.6} ms", median_ms);
}
