use garuda::quant::{
    block_layout, byte_size, check_matvec, dequant_into, dequantize, f16_to_f32,
    get_scale_min_k4, has_integer_kernel, is_supported, name_of_type, row_partials, unsupported,
    Element, F16, F32, Q2_K, Q3_K, Q4_0, Q4_K, Q5_K, Q6_K, Q8_0, QK, QK_K,
};
use garuda::simd::{dot_i8, sum_i8};
use garuda::types::GarudaError;

fn half(h: u16) -> f32 {
    f32::from_bits(f16_to_f32(h))
}

/// The number that an element denotes.
fn value(e: &Element) -> f32 {
    match *e {
        Element::Plain(bits) => f32::from_bits(bits),
        Element::Scaled {
            d,
            scale,
            quant,
            dmin,
            min,
        } => half(d) * scale as f32 * quant as f32 - half(dmin) * min as f32,
    }
}

fn values(ggml_type: u32, raw: &[u8], n: usize) -> Vec<f32> {
    dequantize(ggml_type, raw, n)
        .unwrap()
        .iter()
        .map(value)
        .collect()
}

/// Little-endian f16 bytes for a few exact values.
fn f16(v: f32) -> [u8; 2] {
    let bits: u16 = if v == 0.0 {
        0x0000
    } else if v == 0.5 {
        0x3800
    } else if v == 1.0 {
        0x3C00
    } else if v == 2.0 {
        0x4000
    } else {
        panic!("add the f16 encoding for {v}")
    };
    bits.to_le_bytes()
}

#[test]
fn f16_decoder_matches_known_values() {
    assert_eq!(half(0x0000), 0.0);
    assert_eq!(half(0x3800), 0.5);
    assert_eq!(half(0x3C00), 1.0);
    assert_eq!(half(0x4000), 2.0);
    assert_eq!(half(0xC000), -2.0);
}

#[test]
fn f16_decoder_handles_every_kind_of_number() {
    assert_eq!(half(0x0001), 2f32.powi(-24), "smallest subnormal");
    assert_eq!(half(0x03FF), 1023.0 * 2f32.powi(-24), "largest subnormal");
    assert_eq!(half(0x0400), 2f32.powi(-14), "smallest normal");
    assert_eq!(half(0x7BFF), 65504.0, "largest finite");
    assert_eq!(half(0x7C00), f32::INFINITY);
    assert_eq!(half(0xFC00), f32::NEG_INFINITY);
    assert!(half(0x7E00).is_nan());
    for h in 0..0x7C00u16 {
        let (exp, mant) = (h >> 10, h & 0x3ff);
        let want = if exp == 0 {
            mant as f32 * 2f32.powi(-24)
        } else {
            (1.0 + mant as f32 / 1024.0) * 2f32.powi(exp as i32 - 15)
        };
        assert_eq!(half(h), want, "{h:#x}");
        assert_eq!(half(h | 0x8000), -want, "{h:#x}");
    }
}

#[test]
fn block_layouts_are_correct() {
    assert_eq!(block_layout(Q8_0), Some((32, 34)));
    assert_eq!(block_layout(Q4_0), Some((32, 18)));
    assert_eq!(block_layout(F16), Some((1, 2)));
    assert_eq!(block_layout(Q2_K), Some((256, 84)));
    assert_eq!(block_layout(Q3_K), Some((256, 110)));
    assert_eq!(block_layout(Q4_K), Some((256, 144)));
    assert_eq!(block_layout(Q5_K), Some((256, 176)));
    assert_eq!(block_layout(Q6_K), Some((256, 210)));
    assert_eq!(block_layout(3), None); // Q4_1 not decoded yet
    assert!(!is_supported(9)); // Q8_1
}

#[test]
fn q5_k_adds_the_high_bit_from_qh() {
    // d = 1, dmin = 0, first sub-block scale = 1. qs[0] low nibble = 3; set the
    // matching qh bit (group 0 low-run uses bit 0) so the 5th bit adds 16 -> 19.
    let mut raw = vec![0u8; 176];
    raw[0..2].copy_from_slice(&f16(1.0)); // d
    raw[2..4].copy_from_slice(&f16(0.0)); // dmin
    raw[4] = 1; // scales[0] -> sc = 1
    raw[16] = 0x01; // qh[0], bit 0 set
    raw[48] = 0x03; // qs[0] low nibble = 3

    let y = values(Q5_K, &raw, 256);
    assert_eq!(y[0], 19.0); // 1 * (3 + 16)
    assert_eq!(y[1], 0.0);
}

#[test]
fn q2_k_reads_2bit_quants_scaled_by_the_4bit_subscale() {
    // d = 1, dmin = 0. scales[0] = 0x02 -> scale nibble 2, min nibble 0.
    // qs[0] bits 0-1 = 3 -> output = 2 * 3 = 6.
    let mut raw = vec![0u8; 84];
    raw[0] = 0x02; // scales[0]: scale=2, min=0
    raw[16] = 0x03; // qs[0]: low 2 bits = 3
    raw[80..82].copy_from_slice(&f16(1.0)); // d
    raw[82..84].copy_from_slice(&f16(0.0)); // dmin

    let y = values(Q2_K, &raw, 256);
    assert_eq!(y[0], 6.0); // 1 * 2 * 3
    assert_eq!(y[1], 0.0);
}

#[test]
fn q6_k_assembles_6bit_quants_centred_at_32() {
    // d = 1.0, all int8 sub-scales = 1. With all quant bits zero, every 6-bit
    // value is 0, so every output is (0 - 32) * 1 * 1 = -32.
    let mut raw = vec![0u8; 210];
    for s in raw[192..208].iter_mut() {
        *s = 1;
    }
    raw[208..210].copy_from_slice(&f16(1.0));

    // Set element 0's low nibble to 5 -> value 5, output = 5 - 32 = -27.
    raw[0] = 0x05;

    let y = values(Q6_K, &raw, 256);
    assert_eq!(y[0], -27.0);
    assert!(y[1..].iter().all(|&v| v == -32.0));
}

#[test]
fn q3_k_reads_signed_three_bit_quants() {
    // d = 1, the first sub-scale at 33 (so 33 - 32 = 1), quant bits all zero: without
    // its high bit a quant is 0 - 4, with it 0.
    let mut raw = vec![0u8; 110];
    raw[96] = 0x01; // low four bits of sub-scale 0
    raw[104] = 0x02; // its high two bits: 0b10 << 4
    raw[0] = 0x01; // high bit of element 0
    raw[108..110].copy_from_slice(&f16(1.0));
    let y = values(Q3_K, &raw, 256);
    assert_eq!(y[0], 0.0);
    assert_eq!(y[1], -4.0);
}

#[test]
fn q4_k_reads_nibbles_scaled_by_the_subblock_scale() {
    // d = 1.0, dmin = 0.0 (so the min term drops out), sub-block scale = 1.
    let mut raw = vec![0u8; 144];
    raw[0..2].copy_from_slice(&f16(1.0)); // d
    raw[2..4].copy_from_slice(&f16(0.0)); // dmin
    raw[4] = 1; // scales[0]: get_scale_min_k4(0) -> sc = 1
    raw[5] = 1; // scales[1]: sc = 1 for the second sub-block too
    // qs[0] = 0x30: low nibble 0 (element 0), high nibble 3 (element 32)
    raw[16] = 0x30;

    let y = values(Q4_K, &raw, 256);
    assert_eq!(y[0], 0.0); // 1 * 0
    assert_eq!(y[32], 3.0); // 1 * 3 (high nibble, second 32-run of the group)
}

#[test]
fn q8_0_dequantises_to_scale_times_q() {
    // one block: scale 0.5, q = 0,1,-2,3, then zeros
    let mut raw = Vec::new();
    raw.extend_from_slice(&f16(0.5));
    let mut qs = [0i8; 32];
    qs[0] = 0;
    qs[1] = 1;
    qs[2] = -2;
    qs[3] = 3;
    raw.extend(qs.iter().map(|&q| q as u8));

    let y = values(Q8_0, &raw, 32);
    assert_eq!(y[0], 0.0);
    assert_eq!(y[1], 0.5);
    assert_eq!(y[2], -1.0);
    assert_eq!(y[3], 1.5);
}

#[test]
fn q4_0_uses_the_low_then_high_nibble_layout() {
    // scale 1.0; byte 0 = 0x80 -> low nibble 0 (->-8), high nibble 8 (->0)
    let mut raw = Vec::new();
    raw.extend_from_slice(&f16(1.0));
    let mut qs = [0u8; 16];
    qs[0] = 0x80; // element 0 <- 0x0, element 16 <- 0x8
    qs[1] = 0x0F; // element 1 <- 0xF (->7), element 17 <- 0x0 (->-8)
    raw.extend_from_slice(&qs);

    let y = values(Q4_0, &raw, 32);
    assert_eq!(y[0], -8.0); // (0 - 8) * 1.0
    assert_eq!(y[16], 0.0); // (8 - 8) * 1.0
    assert_eq!(y[1], 7.0); // (15 - 8)
    assert_eq!(y[17], -8.0); // (0 - 8)
}

#[test]
fn q8_0_round_trips_within_quantisation_error() {
    // Quantise a known vector the way llama.cpp does, then dequantise it back.
    let orig: Vec<f32> = (0..32).map(|i| (i as f32 - 16.0) * 0.37).collect();
    let amax = orig.iter().fold(0.0f32, |m, &v| m.max(v.abs()));
    let scale = amax / 127.0;

    let mut raw = Vec::new();
    raw.extend_from_slice(&half_bits(scale).to_le_bytes());
    let decoded_scale = half(half_bits(scale));
    for &v in &orig {
        let q = (v / scale).round().clamp(-127.0, 127.0) as i8;
        raw.push(q as u8);
    }

    let y = values(Q8_0, &raw, 32);
    for (a, b) in orig.iter().zip(y.iter()) {
        // error bounded by one quantisation step of the (f16-rounded) scale
        assert!((a - b).abs() <= decoded_scale + 1e-4, "{a} vs {b}");
    }
}

#[test]
fn wrong_length_and_unsupported_type_are_errors() {
    assert!(dequantize(Q8_0, &[0u8; 10], 32).is_err()); // too short
    assert!(dequantize(12, &[0u8; 100], 32).is_err()); // Q4_K unsupported
    assert!(byte_size(Q8_0, 33).is_err()); // not a whole block
}

#[test]
fn errors_name_the_type() {
    assert_eq!(name_of_type(Q4_K), "Q4_K");
    assert_eq!(name_of_type(3), "Q4_1");
    let GarudaError::Model(m) = unsupported(3) else {
        panic!("not a model error");
    };
    assert!(m.starts_with("tensor type Q4_1 (3) is not supported; F32, F16, Q4_0/Q8_0"));
    assert_eq!(byte_size(F32, 7).unwrap(), 28);
    assert_eq!(byte_size(Q4_K, 512).unwrap(), 288);
    assert!(byte_size(3, 32).is_err());
}

#[test]
fn a_block_that_is_not_finite_is_refused_on_the_checked_path() {
    let mut raw = vec![0u8; 34];
    raw[0..2].copy_from_slice(&0x7C00u16.to_le_bytes());
    raw[2] = 1;
    assert!(dequant_into(Q8_0, &raw, 32).is_ok());
    assert!(dequantize(Q8_0, &raw, 32).is_err());
}

/// Minimal f32 -> f16 for the round-trip test (round-to-nearest, normals only).
fn half_bits(v: f32) -> u16 {
    if v == 0.0 {
        return 0;
    }
    let bits = v.to_bits();
    let sign = ((bits >> 16) & 0x8000) as u16;
    let exp = ((bits >> 23) & 0xff) as i32 - 127 + 15;
    let mant = bits & 0x7f_ffff;
    if exp <= 0 {
        return sign; // flush tiny values to zero — fine for this test
    }
    if exp >= 0x1f {
        return sign | 0x7c00;
    }
    sign | ((exp as u16) << 10) | ((mant >> 13) as u16)
}

/// splitmix64, for deterministic pseudo-random test data.
fn splitmix64(state: &mut u64) -> u64 {
    *state = state.wrapping_add(0x9E37_79B9_7F4A_7C15);
    let mut z = *state;
    z = (z ^ (z >> 30)).wrapping_mul(0xBF58_476D_1CE4_E5B9);
    z = (z ^ (z >> 27)).wrapping_mul(0x94D0_49BB_1331_11EB);
    z ^ (z >> 31)
}

/// Inverse of [`get_scale_min_k4`]: pack 8 sub-block scales and 8 mins (each a
/// 6-bit value, 0..64) into the 12-byte layout `block_q4_K` stores them in.
fn pack_scale_min_k4(scales: [u8; 8], mins: [u8; 8]) -> [u8; 12] {
    let mut s = [0u8; 12];
    for i in 0..4 {
        s[i] = (scales[i] & 0x3F) | ((scales[4 + i] >> 4) << 6);
        s[4 + i] = (mins[i] & 0x3F) | ((mins[4 + i] >> 4) << 6);
        s[8 + i] = (scales[4 + i] & 0x0F) | ((mins[4 + i] & 0x0F) << 4);
    }
    s
}

#[test]
fn pack_scale_min_k4_round_trips_through_the_real_unpacker() {
    let scales = [1u8, 5, 9, 13, 17, 21, 25, 29];
    let mins = [2u8, 6, 10, 14, 18, 22, 26, 30];
    let packed = pack_scale_min_k4(scales, mins);
    for j in 0..8 {
        let (sc, mn) = get_scale_min_k4(j, &packed);
        assert_eq!(sc, scales[j], "scale[{j}]");
        assert_eq!(mn, mins[j], "min[{j}]");
    }
}

/// A random-but-valid `block_q4_K` super-block: plausible `d`/`dmin`, random
/// 6-bit sub-scales/mins, random 4-bit quants.
fn random_q4_k_block(seed: &mut u64) -> [u8; 144] {
    let mut b = [0u8; 144];
    let d = half_bits(0.02 + (splitmix64(seed) % 100) as f32 * 0.001);
    let dmin = half_bits((splitmix64(seed) % 50) as f32 * 0.001);
    b[0..2].copy_from_slice(&d.to_le_bytes());
    b[2..4].copy_from_slice(&dmin.to_le_bytes());
    let scales: [u8; 8] = std::array::from_fn(|_| (splitmix64(seed) % 64) as u8);
    let mins: [u8; 8] = std::array::from_fn(|_| (splitmix64(seed) % 64) as u8);
    b[4..16].copy_from_slice(&pack_scale_min_k4(scales, mins));
    for byte in b[16..144].iter_mut() {
        *byte = (splitmix64(seed) % 256) as u8;
    }
    b
}

/// A vector as bytes, with one factor per 32 elements.
fn quantize_activation(x: &[f32]) -> (Vec<i8>, Vec<f32>) {
    let mut xq = Vec::new();
    let mut xs = Vec::new();
    for blk in x.chunks_exact(QK) {
        let amax = blk.iter().fold(0.0f32, |m, &v| m.max(v.abs()));
        let scale = amax / 127.0;
        xs.push(scale);
        let inv = if scale > 0.0 { 1.0 / scale } else { 0.0 };
        xq.extend(
            blk.iter()
                .map(|&v| (v * inv).round().clamp(-127.0, 127.0) as i8),
        );
    }
    (xq, xs)
}

/// The product of a packed matrix with a vector, from the integer sums of its rows.
fn matvec(
    qtype: u32,
    weight: &[u8],
    rows: usize,
    cols: usize,
    x: &[f32],
    out: &mut [f32],
) -> Result<(), GarudaError> {
    let row_bytes = check_matvec(qtype, weight.len(), rows, cols, x.len(), out.len())?;
    assert!(has_integer_kernel(qtype));
    let (xq, xs) = quantize_activation(x);
    for (o, row) in out.iter_mut().zip(weight.chunks_exact(row_bytes)) {
        *o = row_partials(qtype, row, &xq)
            .iter()
            .zip(&xs)
            .map(|(p, s)| {
                s * (half(p.d) * p.scale as f32 * p.dot as f32
                    - half(p.dmin) * p.min as f32 * p.sum as f32)
            })
            .sum();
    }
    Ok(())
}

#[test]
fn q4_k_matvec_matches_the_dequantise_then_dot_reference() {
    let mut seed = 42u64;
    // 3 super-blocks per row (768 elements) and 5 rows, so both the multi-block
    // and multi-row paths get exercised.
    let (rows, blocks_per_row) = (5, 3);
    let cols = blocks_per_row * QK_K;

    let mut weight = Vec::new();
    for _ in 0..rows {
        for _ in 0..blocks_per_row {
            weight.extend_from_slice(&random_q4_k_block(&mut seed));
        }
    }
    let x: Vec<f32> = (0..cols)
        .map(|i| ((splitmix64(&mut seed) % 2000) as f32 / 1000.0 - 1.0) * (1 + i % 5) as f32)
        .collect();

    let mut got = vec![0.0f32; rows];
    matvec(Q4_K, &weight, rows, cols, &x, &mut got).unwrap();

    for r in 0..rows {
        let row = &weight[r * blocks_per_row * 144..(r + 1) * blocks_per_row * 144];
        let deq = values(Q4_K, row, cols);
        let want: f32 = deq.iter().zip(&x).map(|(a, b)| a * b).sum();
        // `x` is quantised to int8 with a per-32-block scale, so this is close but not
        // bit-identical.
        let tol = want.abs() * 0.02 + 1.0;
        assert!(
            (got[r] - want).abs() < tol,
            "row {r}: got {}, want {} (tol {tol})",
            got[r],
            want
        );
    }
}

#[test]
fn q4_k_matvec_handles_an_all_zero_row_without_nan_or_panic() {
    let weight = vec![0u8; 144 * 2];
    let x = vec![0.5f32; QK_K * 2];
    let mut out = vec![0.0f32; 1];
    matvec(Q4_K, &weight, 1, QK_K * 2, &x, &mut out).unwrap();
    assert_eq!(out[0], 0.0);
}

#[test]
fn a_product_with_the_wrong_lengths_is_refused() {
    let GarudaError::Model(m) = check_matvec(Q8_0, 33, 1, 32, 32, 1).unwrap_err() else {
        panic!("not a model error");
    };
    assert_eq!(
        m,
        "Q8_0 matvec: weight is 33 bytes, expected 34 (1 rows × 34)"
    );
    let GarudaError::Inference(m) = check_matvec(Q8_0, 34, 1, 32, 31, 2).unwrap_err() else {
        panic!("not an inference error");
    };
    assert_eq!(
        m,
        "matvec dimension mismatch: x=31, out=2, expected cols=32, rows=1"
    );
    assert_eq!(check_matvec(Q8_0, 68, 2, 32, 32, 2).unwrap(), 34);
}

#[test]
fn integer_dots_match_the_naive_sum() {
    let a: Vec<i8> = (0..100).map(|i| (i * 7 % 255) as u8 as i8).collect();
    let b: Vec<i8> = (0..100).map(|i| (i * 13 % 255) as u8 as i8).collect();
    let want: i32 = a.iter().zip(&b).map(|(&x, &y)| x as i32 * y as i32).sum();
    assert_eq!(dot_i8(&a, &b), want);
    assert_eq!(sum_i8(&a), a.iter().map(|&x| x as i32).sum::<i32>());
}
