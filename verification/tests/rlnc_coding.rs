use rnet::gf256::{gf_add, gf_inv, gf_mul};
use rnet::linalg::gauss_jordan;
use rnet::rlnc::{EncodedPayload, DEFAULT_CHUNK_SIZE, DEFAULT_ENCODE_SET_LEN};

fn combine(coeffs: &[u8], packets: &[Vec<u8>], t: usize) -> u8 {
    let mut acc = 0u8;
    for (c, p) in coeffs.iter().zip(packets.iter()) {
        acc = gf_add(acc, gf_mul(*c, p[t]));
    }
    acc
}

#[test]
fn field_arithmetic_values() {
    assert_eq!(gf_add(0x57, 0x83), 0xd4);
    assert_eq!(gf_mul(0x57, 0x83), 0xc1);
    assert_eq!(gf_mul(0x57, 0x13), 0xfe);
    assert_eq!(gf_mul(0x02, 0x80), 0x1b);
    assert_eq!(gf_mul(0x53, 0xca), 0x01);
    assert_eq!(gf_mul(0, 0xff), 0);
    assert_eq!(gf_inv(0x53), 0xca);
    assert_eq!(gf_inv(1), 1);
    assert_eq!(gf_inv(2), 0x8d);
}

#[test]
fn field_laws_hold_on_samples() {
    let samples = [0u8, 1, 2, 3, 0x1b, 0x53, 0x80, 0xca, 0xff];
    for &a in &samples {
        assert_eq!(gf_mul(a, 1), a);
        assert_eq!(gf_mul(a, 0), 0);
        for &b in &samples {
            assert_eq!(gf_mul(a, b), gf_mul(b, a));
            for &c in &samples {
                assert_eq!(gf_mul(a, gf_mul(b, c)), gf_mul(gf_mul(a, b), c));
                assert_eq!(gf_mul(a, gf_add(b, c)), gf_add(gf_mul(a, b), gf_mul(a, c)));
            }
        }
    }
}

#[test]
fn every_nonzero_element_has_its_inverse() {
    for x in 1..=255u8 {
        let y = gf_inv(x);
        assert_eq!(gf_mul(x, y), 1, "inverse of {}", x);
        for z in 1..y {
            assert_ne!(gf_mul(x, z), 1);
        }
    }
}

#[test]
fn split_pads_the_last_packet() {
    let packets = EncodedPayload::split(b"123rlnc___rocks!!");
    assert_eq!(
        packets,
        vec![
            b"123rl".to_vec(),
            b"nc___".to_vec(),
            b"rocks".to_vec(),
            vec![b'!', b'!', 0, 0, 0],
        ]
    );
    assert_eq!(EncodedPayload::split(b""), Vec::<Vec<u8>>::new());
    assert_eq!(EncodedPayload::split(b"abcde"), vec![b"abcde".to_vec()]);
    assert!(EncodedPayload::split(&[7u8; 32]).iter().all(|p| p.len() == DEFAULT_CHUNK_SIZE as usize));
    assert_eq!(EncodedPayload::split(&[7u8; 32]).len(), 7);
}

#[test]
fn encoded_set_combines_the_packets() {
    let packets = EncodedPayload::split(b"123rlnc___rocks!!");
    let set = EncodedPayload::generate_encoded_set(&packets, "msg-1".to_string());
    assert_eq!(set.len(), DEFAULT_ENCODE_SET_LEN as usize);
    for e in &set {
        assert_eq!(e.id, "msg-1");
        assert_eq!(e.coeffs.len(), packets.len());
        assert_eq!(e.payload.len(), DEFAULT_CHUNK_SIZE as usize);
        for t in 0..e.payload.len() {
            assert_eq!(e.payload[t], combine(&e.coeffs, &packets, t));
        }
    }
}

#[test]
fn encode_with_coefficients_is_the_combination() {
    let packets = vec![vec![1u8, 2, 3], vec![4u8, 5, 6]];
    let e = EncodedPayload::encode_with_coefficients(&packets, vec![2, 3], "x".to_string());
    assert_eq!(e.coeffs, vec![2, 3]);
    assert_eq!(e.id, "x");
    let expected: Vec<u8> = (0..3).map(|t| gf_add(gf_mul(2, packets[0][t]), gf_mul(3, packets[1][t]))).collect();
    assert_eq!(e.payload, expected);
    // a unit coefficient row hands back its packet
    let unit = EncodedPayload::encode_with_coefficients(&packets, vec![0, 1], "x".to_string());
    assert_eq!(unit.payload, packets[1]);
}

#[test]
fn linear_system_rows_are_the_packets_fields() {
    let packets = vec![vec![1u8, 2], vec![3u8, 4]];
    let set = vec![
        EncodedPayload::encode_with_coefficients(&packets, vec![1, 1], "a".to_string()),
        EncodedPayload::encode_with_coefficients(&packets, vec![0, 5], "a".to_string()),
    ];
    let (matrix, data) = EncodedPayload::build_linear_system(&set);
    assert_eq!(matrix, vec![vec![1, 1], vec![0, 5]]);
    assert_eq!(data, vec![set[0].payload.clone(), set[1].payload.clone()]);
}

#[test]
fn decoding_invertible_coefficients_recovers_the_payload() {
    let payload = b"123rlnc___rocks!!";
    let packets = EncodedPayload::split(payload);
    let rows = vec![
        vec![0u8, 3, 0, 1],
        vec![1u8, 0, 0, 0],
        vec![2u8, 7, 1, 0],
        vec![5u8, 6, 7, 9],
    ];
    let set: Vec<EncodedPayload> = rows
        .into_iter()
        .map(|c| EncodedPayload::encode_with_coefficients(&packets, c, "id".to_string()))
        .collect();
    let (mut matrix, mut data) = EncodedPayload::build_linear_system(&set);
    EncodedPayload::gaussian_elimination(&mut matrix, &mut data);
    for (i, row) in matrix.iter().enumerate() {
        for (j, v) in row.iter().enumerate() {
            assert_eq!(*v, if i == j { 1 } else { 0 });
        }
    }
    let mut expected = payload.to_vec();
    expected.extend_from_slice(&[0, 0, 0]);
    assert_eq!(EncodedPayload::reconstruct(data), expected);
}

#[test]
fn decoding_random_sets_recovers_the_payload() {
    let payload = b"123rlnc___rocks!!";
    let packets = EncodedPayload::split(payload);
    let mut expected = payload.to_vec();
    expected.extend_from_slice(&[0, 0, 0]);
    let mut decoded = 0;
    for _ in 0..20 {
        let set = EncodedPayload::generate_encoded_set(&packets, "id".to_string());
        let selected: Vec<EncodedPayload> = set.into_iter().take(packets.len()).collect();
        let (mut matrix, mut data) = EncodedPayload::build_linear_system(&selected);
        EncodedPayload::gaussian_elimination(&mut matrix, &mut data);
        let identity = matrix
            .iter()
            .enumerate()
            .all(|(i, row)| row.iter().enumerate().all(|(j, v)| *v == if i == j { 1 } else { 0 }));
        if identity {
            assert_eq!(EncodedPayload::reconstruct(data), expected);
            decoded += 1;
        }
    }
    assert!(decoded > 0);
}

#[test]
fn singular_system_is_left_reduced() {
    let mut matrix = vec![vec![0u8, 0], vec![0u8, 2]];
    let mut data = vec![vec![9u8], vec![4u8]];
    EncodedPayload::gaussian_elimination(&mut matrix, &mut data);
    assert_eq!(matrix, vec![vec![0, 0], vec![0, 1]]);
    assert_eq!(data, vec![vec![9], vec![gf_mul(4, gf_inv(2))]]);

    let mut m2 = vec![vec![2u8, 4], vec![1u8, 2]];
    let mut d2 = vec![vec![6u8], vec![3u8]];
    gauss_jordan(&mut m2, &mut d2);
    assert_eq!(m2[0], vec![1, 2]);
    assert_eq!(m2[1], vec![0, 0]);
}

#[test]
fn reconstruct_lays_rows_end_to_end() {
    assert_eq!(EncodedPayload::reconstruct(vec![vec![1, 2], vec![], vec![3]]), vec![1, 2, 3]);
    assert_eq!(EncodedPayload::reconstruct(vec![]), Vec::<u8>::new());
}

#[test]
fn walkthrough_packets_encode_and_decode() {
    let input = b"1234hello_world__is_rlnc".to_vec();
    let packets = EncodedPayload::split(&input);
    assert_eq!(
        packets,
        vec![
            vec![49, 50, 51, 52, 104],
            vec![101, 108, 108, 111, 95],
            vec![119, 111, 114, 108, 100],
            vec![95, 95, 105, 115, 95],
            vec![114, 108, 110, 99, 0],
        ]
    );
    let coefficient_rows: Vec<Vec<u8>> = vec![
        vec![207, 241, 34, 130, 216],
        vec![249, 51, 26, 181, 83],
        vec![107, 170, 20, 18, 39],
        vec![245, 118, 200, 170, 0],
        vec![72, 94, 184, 8, 194],
        vec![86, 74, 187, 79, 128],
        vec![199, 132, 45, 60, 148],
    ];
    let expected_payloads: Vec<Vec<u8>> = vec![
        vec![0, 60, 221, 203, 4],
        vec![143, 92, 125, 103, 237],
        vec![141, 241, 74, 49, 166],
        vec![53, 244, 233, 0, 140],
        vec![192, 38, 246, 245, 175],
        vec![3, 166, 102, 202, 147],
        vec![164, 177, 237, 50, 18],
    ];
    let encoded: Vec<EncodedPayload> = coefficient_rows
        .iter()
        .map(|c| EncodedPayload::encode_with_coefficients(&packets, c.clone(), "walk".to_string()))
        .collect();
    for (e, expected) in encoded.iter().zip(expected_payloads.iter()) {
        assert_eq!(&e.payload, expected);
    }
    let selected: Vec<EncodedPayload> = encoded.into_iter().take(packets.len()).collect();
    let (mut matrix, mut data) = EncodedPayload::build_linear_system(&selected);
    EncodedPayload::gaussian_elimination(&mut matrix, &mut data);
    assert_eq!(
        matrix,
        vec![
            vec![1, 0, 0, 0, 0],
            vec![0, 1, 0, 0, 0],
            vec![0, 0, 1, 0, 0],
            vec![0, 0, 0, 1, 0],
            vec![0, 0, 0, 0, 1],
        ]
    );
    assert_eq!(data, packets);
    let mut expected = input.clone();
    expected.push(0);
    assert_eq!(EncodedPayload::reconstruct(data), expected);
}

#[test]
fn elimination_swaps_scales_and_clears() {
    let mut matrix = vec![vec![0u8, 1], vec![1u8, 1]];
    let mut data = vec![vec![3u8], vec![5u8]];
    EncodedPayload::gaussian_elimination(&mut matrix, &mut data);
    assert_eq!(matrix, vec![vec![1, 0], vec![0, 1]]);
    assert_eq!(data, vec![vec![6], vec![3]]);

    let mut matrix = vec![vec![2u8]];
    let mut data = vec![vec![4u8, 6]];
    EncodedPayload::gaussian_elimination(&mut matrix, &mut data);
    assert_eq!(matrix, vec![vec![1]]);
    assert_eq!(data, vec![vec![2, 3]]);
}

#[test]
fn elimination_skips_a_column_without_pivot() {
    let mut matrix = vec![vec![1u8, 1], vec![1u8, 1]];
    let mut data = vec![vec![2u8], vec![3u8]];
    EncodedPayload::gaussian_elimination(&mut matrix, &mut data);
    assert_eq!(matrix, vec![vec![1, 1], vec![0, 0]]);
    assert_eq!(data, vec![vec![2], vec![1]]);
}

#[test]
fn elimination_keeps_row_lengths() {
    let mut matrix = vec![vec![3u8, 1, 4], vec![1u8, 5, 9], vec![2u8, 6, 5]];
    let mut data = vec![vec![1u8, 2], vec![3u8, 4], vec![5u8, 6], vec![7u8, 8]];
    EncodedPayload::gaussian_elimination(&mut matrix, &mut data);
    assert!(matrix.iter().all(|r| r.len() == 3));
    assert!(data.iter().all(|r| r.len() == 2));
    // rows past the matrix are left alone
    assert_eq!(data[3], vec![7, 8]);
}

fn polynomial_product_mod_11b(a: u8, b: u8) -> u8 {
    let mut p: u16 = 0;
    for i in 0..8 {
        if (b >> i) & 1 == 1 {
            p ^= (a as u16) << i;
        }
    }
    for k in (8..15).rev() {
        if (p >> k) & 1 == 1 {
            p ^= 0x11b << (k - 8);
        }
    }
    p as u8
}

#[test]
fn field_product_is_the_polynomial_product_mod_11b() {
    for a in 0..=255u8 {
        for b in 0..=255u8 {
            assert_eq!(gf_mul(a, b), polynomial_product_mod_11b(a, b));
        }
    }
}
