use riff::common::{get_party_number, int_to_text, join_numbers, number_to_bits, party_number, random_from_bytes, PartyId};
use riff::crypto_provider::CryptoProviderHandlers;
use riff::helper::{extended_gcd, modF};
use riff::secret_share::SecretShare;
use riff::shamir::{jiff_compute_shares, jiff_lagrange, OpenedShare};

#[test]
fn mod_f_gives_the_remainder_in_the_field() {
    assert_eq!(modF(7, 5), 2);
    assert_eq!(modF(-7, 5), 3);
    assert_eq!(modF(-10, 5), 0);
    assert_eq!(modF(-7, 7), 0);
    assert_eq!(modF(0, 5), 0);
}

#[test]
fn extended_gcd_gives_the_inverse() {
    assert_eq!(extended_gcd(3, 7), (-2, 1, 1));
    let (x, _, d) = extended_gcd(5, 16777729);
    assert_eq!(d, 1);
    assert_eq!(modF(5 * x, 16777729), 1);
    assert_eq!(extended_gcd(4, 0), (1, 0, 4));
}

#[test]
fn number_to_bits_least_significant_first() {
    assert_eq!(number_to_bits(5, None), vec![1, 0, 1]);
    assert_eq!(number_to_bits(5, Some(5)), vec![1, 0, 1, 0, 0]);
    assert_eq!(number_to_bits(0, None), vec![0]);
    assert_eq!(number_to_bits(13, Some(2)), vec![1, 0, 1, 1]);
    let bits = number_to_bits(13, None);
    let mut value = 0u64;
    for (i, b) in bits.iter().enumerate() {
        value += b << i;
    }
    assert_eq!(value, 13);
}

#[test]
fn party_numbers_of_ids() {
    assert_eq!(get_party_number(&PartyId::Number(3)), 3);
    assert_eq!(get_party_number(&PartyId::Text(String::from("s1"))), -1);
    assert_eq!(get_party_number(&PartyId::Text(String::from("7"))), 7);
    assert_eq!(party_number(&PartyId::Text(String::from("x"))), None);
    assert_eq!(party_number(&PartyId::Text(String::from("s12"))), Some(-12));
}

#[test]
fn decimal_texts() {
    assert_eq!(int_to_text(-120), "-120");
    assert_eq!(int_to_text(0), "0");
    assert_eq!(int_to_text(i64::MIN), "-9223372036854775808");
    assert_eq!(join_numbers(&vec![1, 2, 3]), "1,2,3");
    assert_eq!(join_numbers(&vec![]), "");
}

#[test]
fn random_by_rejection() {
    assert_eq!(random_from_bytes(10, &vec![7]), Some(7));
    assert_eq!(random_from_bytes(10, &vec![25]), Some(5));
    assert_eq!(random_from_bytes(10, &vec![253]), None);
    assert_eq!(random_from_bytes(1000, &vec![0, 5]), Some(5));
}

#[test]
fn crypto_provider_values() {
    assert_eq!(CryptoProviderHandlers::triplet(11, 3, 5), vec![3, 5, 4]);
    assert_eq!(CryptoProviderHandlers::quotient(11, 3, 10), vec![10, 3]);
}

fn share(value: i64) -> SecretShare {
    SecretShare::new(value, vec![1, 2, 3], 3, 11)
}

#[test]
fn constant_operations() {
    assert_eq!(share(9).cadd(5).value, 3);
    assert_eq!(share(2).csub(5).value, 8);
    assert_eq!(share(4).cmult(6).value, 2);
    let q = share(6).cdivfac(3);
    assert_eq!(modF(q.value * 3, 11), 6);
}

#[test]
fn share_operations() {
    let a = share(7);
    let b = SecretShare::new(9, vec![1, 2, 3], 2, 11);
    let s = a.sadd(&b);
    assert_eq!(s.value, 5);
    assert_eq!(s.threshold, 3);
    assert_eq!(a.ssub(&b).value, 9);
    assert_eq!(a.refresh(&share(0)).value, 7);
    let p = SecretShare::new(3, vec![1, 2, 3], 2, 11).smult_bgw(&SecretShare::new(4, vec![1, 2, 3], 2, 11));
    assert_eq!(p.value, 1);
    assert_eq!(p.threshold, 3);
}

#[test]
fn beaver_multiplication_step() {
    // x = 6, y = 7 with triple a = 2, b = 3, c = 6 (mod 11), as single shares.
    let x = share(6);
    let y = share(7);
    let (d, e) = x.smult_mask(&y, &share(2), &share(3));
    assert_eq!(d.value, 4);
    assert_eq!(e.value, 4);
    let z = x.smult_combine(&share(2), &share(3), &share(6), d.value, e.value);
    assert_eq!(z.value, modF(6 * 7, 11));
}

#[test]
fn shamir_shares_are_polynomial_values() {
    assert_eq!(jiff_compute_shares(5, &vec![1, 2, 3], 2, 11, &vec![3]), vec![8, 0, 3]);
    assert_eq!(jiff_compute_shares(5, &vec![1, 2], 1, 11, &vec![]), vec![5, 5]);
}

#[test]
fn lagrange_reconstructs_the_secret() {
    let opened = |values: &[i64], zp: i64| -> Vec<OpenedShare> {
        values.iter().enumerate().map(|(i, v)| OpenedShare { value: *v, sender_id: i as i64 + 1, Zp: zp }).collect()
    };
    assert_eq!(jiff_lagrange(&opened(&[8, 0], 11)), 5);
    assert_eq!(jiff_lagrange(&opened(&[8, 0, 3], 11)), 5);
    let zp = 16777729;
    let a = jiff_compute_shares(100, &vec![1, 2, 3], 3, zp, &vec![12345, 678]);
    let b = jiff_compute_shares(250, &vec![1, 2, 3], 3, zp, &vec![999, 4242]);
    assert_eq!(a, vec![13123, 27502, 43237]);
    assert_eq!(jiff_lagrange(&opened(&a, zp)), 100);
    let sum: Vec<i64> = a.iter().zip(b.iter()).map(|(x, y)| modF(x + y, zp)).collect();
    assert_eq!(jiff_lagrange(&opened(&sum, zp)), 350);
}
