use rand::Rng;
use toyrsa::{checked_decrypt, decrypt, encrypt, gcd, genkey_step, EXP};

fn is_prime(n: u32) -> bool {
    if n < 2 {
        return false;
    }
    let mut d: u64 = 2;
    while d * d <= n as u64 {
        if n as u64 % d == 0 {
            return false;
        }
        d += 1;
    }
    true
}

// A random prime of exactly 32 bits.
fn draw_prime<R: Rng>(rng: &mut R) -> u32 {
    loop {
        let candidate: u32 = rng.gen::<u32>() | 0x8000_0001;
        if is_prime(candidate) {
            return candidate;
        }
    }
}

// Draws pairs of primes until one passes as a key.
fn draw_key<R: Rng>(rng: &mut R) -> (u32, u32) {
    loop {
        let p = draw_prime(rng);
        let q = draw_prime(rng);
        if let Some(key) = genkey_step(p, q) {
            return key;
        }
    }
}

// encrypt a random u32 10 times and check the result - tests decrypt, encrypt and key generation
#[test]
fn test_random_10_rsa_encryption_decryption() {
    for _ in 0..10 {
        // Generate an RSA key pair
        let mut rng = rand::thread_rng();
        let key = draw_key(&mut rng);

        // Generate a random u32 number
        let message: u32 = rng.gen();
        println!("message: {}", message);

        // Encrypt the random number
        let encrypted_message = encrypt(key.0 as u64 * key.1 as u64, message);

        // Decrypt the encrypted message
        let decrypted_message = decrypt(key, encrypted_message);

        // Check if the decrypted message matches the one that was encrypted
        assert_eq!(decrypted_message, message);
    }
}

#[test]
fn round_trip_over_many_random_keys() {
    let mut rng = rand::thread_rng();
    let mut done = 0;
    while done < 100 {
        let key = draw_key(&mut rng);
        if key.0 == key.1 {
            continue;
        }
        let n = key.0 as u64 * key.1 as u64;
        for _ in 0..3 {
            let message: u32 = rng.gen();
            let ciphertext = encrypt(n, message);
            assert!(ciphertext < n);
            assert_eq!(decrypt(key, ciphertext), message);
            assert_eq!(checked_decrypt(key, ciphertext), Some(message));
        }
        done += 1;
    }
}

#[test]
fn drawn_keys_are_valid() {
    let mut rng = rand::thread_rng();
    for _ in 0..20 {
        let (p, q) = draw_key(&mut rng);
        assert!(is_prime(p) && is_prime(q));
        assert!(p >= 1 << 31 && q >= 1 << 31);
        let totient = (p - 1) as u64 * (q - 1) as u64;
        assert!(EXP < totient);
        assert_eq!(gcd(EXP, totient), 1);
    }
}

#[test]
fn exponent_is_fixed() {
    assert_eq!(EXP, 65_537);
}

#[test]
fn encrypt_exact_values() {
    assert_eq!(encrypt(3233, 65), 2790);
    assert_eq!(encrypt(65_537, 42), 42);
    assert_eq!(encrypt(2_316_400_759, 42), 8_497_541);
    assert_eq!(encrypt(2_316_400_759, 1_234_567), 356_574_817);
    assert_eq!(
        encrypt(4_611_686_138_686_472_687, 1_850_209_054),
        3_021_195_821_831_697_977
    );
    assert_eq!(
        encrypt(18_446_743_979_220_271_189, 1_850_209_054),
        11_236_051_818_524_949_956
    );
}

#[test]
fn encrypt_edge_messages() {
    let n: u64 = 4_611_686_138_686_472_687;
    assert_eq!(encrypt(n, 0), 0);
    assert_eq!(encrypt(n, 1), 1);
    assert_eq!(encrypt(1, 12_345), 0);
}

#[test]
fn decrypt_exact_values() {
    assert_eq!(decrypt((61, 53), 2790), 65);
    assert_eq!(decrypt((49_169, 47_111), 8_497_541), 42);
    assert_eq!(decrypt((49_169, 47_111), 356_574_817), 1_234_567);
    assert_eq!(
        decrypt((2_147_483_659, 2_147_483_693), 3_021_195_821_831_697_977),
        1_850_209_054
    );
}

#[test]
fn decrypt_under_a_totient_of_64_bits() {
    let key = (4_294_967_291, 4_294_967_279);
    assert_eq!(decrypt(key, 11_236_051_818_524_949_956), 1_850_209_054);
    let mixed = (2_147_483_659, 4_294_967_291);
    assert_eq!(decrypt(mixed, 2_311_052_029_106_820_588), 1_850_209_054);
}

#[test]
fn round_trip_of_edge_messages() {
    let key = (2_147_483_659u32, 4_294_967_291u32);
    let n = key.0 as u64 * key.1 as u64;
    for message in [0u32, 1, 2, 65_537, u32::MAX - 1, u32::MAX] {
        assert_eq!(decrypt(key, encrypt(n, message)), message);
    }
}

#[test]
fn round_trip_under_small_primes() {
    // every message below the modulus comes back
    let key = (61u32, 53u32);
    for message in 0u32..3233 {
        assert_eq!(decrypt(key, encrypt(3233, message)), message);
    }
}

#[test]
fn checked_decrypt_agrees_with_decrypt() {
    assert_eq!(checked_decrypt((61, 53), 2790), Some(65));
    assert_eq!(checked_decrypt((49_169, 47_111), 8_497_541), Some(42));
    assert_eq!(
        checked_decrypt((4_294_967_291, 4_294_967_279), 11_236_051_818_524_949_956),
        Some(1_850_209_054)
    );
}

#[test]
fn checked_decrypt_without_private_exponent() {
    // no prime at all
    assert_eq!(checked_decrypt((0, 5), 1), None);
    assert_eq!(checked_decrypt((5, 0), 1), None);
    // a totient of zero
    assert_eq!(checked_decrypt((1, 7), 1), None);
    // a totient that the exponent divides
    assert_eq!(checked_decrypt((2_148_696_083, 2_147_483_659), 12_345), None);
}

#[test]
fn checked_decrypt_of_a_wide_plaintext() {
    // the plaintext is 2476421243260949721, wider than a message
    assert_eq!(checked_decrypt((2_147_483_659, 2_147_483_693), 12_345), None);
}

#[test]
fn genkey_step_accepts_a_passing_pair() {
    assert_eq!(
        genkey_step(2_147_483_659, 2_147_483_693),
        Some((2_147_483_659, 2_147_483_693))
    );
    assert_eq!(
        genkey_step(4_294_967_291, 4_294_967_279),
        Some((4_294_967_291, 4_294_967_279))
    );
    assert_eq!(genkey_step(49_169, 47_111), Some((49_169, 47_111)));
}

#[test]
fn genkey_step_rejects_a_shared_divisor() {
    // 2148696083 - 1 is a multiple of the exponent
    assert_eq!(genkey_step(2_148_696_083, 2_147_483_659), None);
    assert_eq!(genkey_step(2_147_483_659, 2_149_482_527), None);
}

#[test]
fn genkey_step_rejects_a_small_totient() {
    assert_eq!(genkey_step(61, 53), None);
    assert_eq!(genkey_step(2, 2), None);
    assert_eq!(genkey_step(1, 1), None);
    // the totient equals the exponent
    assert_eq!(genkey_step(65_538, 2), None);
}
