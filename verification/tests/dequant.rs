use nucleon::loader::dequant::{dequantize, is_quantized, tensor_byte_len, Decoded, GGML_F32, GGML_Q8_0};
use nucleon::loader::LoaderError;

fn f32_bytes(vals: &[f32]) -> Vec<u8> {
    let mut out = Vec::with_capacity(vals.len() * 4);
    for v in vals {
        out.extend_from_slice(&v.to_le_bytes());
    }
    out
}

/// ggml's reference Q8_0 quantizer: per 32-value block, d = amax / 127
/// stored as f16, q = round(x / d).
fn quantize_q8_0_ref(vals: &[f32]) -> Vec<u8> {
    assert!(vals.len() % 32 == 0, "Q8_0 needs multiples of 32");
    let mut out = Vec::with_capacity(vals.len() / 32 * 34);
    for block in vals.chunks(32) {
        let amax = block.iter().fold(0.0f32, |m, v| m.max(v.abs()));
        let d = amax / 127.0;
        let id = if d != 0.0 { 1.0 / d } else { 0.0 };
        out.extend_from_slice(&half::f16::from_f32(d).to_le_bytes());
        for &v in block {
            out.push(((v * id).round() as i32).clamp(-128, 127) as u8);
        }
    }
    out
}

/// The values a decoded tensor stands for.
fn values(d: &Decoded) -> Vec<f32> {
    match d {
        Decoded::F32 { bits } => bits.iter().map(|b| f32::from_bits(*b)).collect(),
        Decoded::Q8_0 { scales, quants } => quants
            .iter()
            .enumerate()
            .map(|(i, q)| half::f16::from_bits(scales[i / 32]).to_f32() * f32::from(*q))
            .collect(),
    }
}

#[test]
fn f32_passes_through_bit_exactly() {
    let vals = [0.0f32, 1.5, -2.25, f32::MIN_POSITIVE];
    let out = dequantize(GGML_F32, &f32_bytes(&vals), 4, 4, "t").unwrap();
    for (a, b) in vals.iter().zip(&values(&out)) {
        assert_eq!(a.to_bits(), b.to_bits());
    }
}

#[test]
fn q8_0_dequant_matches_the_formula_exactly() {
    // hand-built block: d = 2.0 (exact in f16), q = 0, 1, -2, ...
    let mut block = Vec::new();
    block.extend_from_slice(&half::f16::from_f32(2.0).to_le_bytes());
    let qs: Vec<i8> = (0..32).map(|i| (i as i8) - 16).collect();
    for q in &qs {
        block.push(*q as u8);
    }
    let out = dequantize(GGML_Q8_0, &block, 32, 32, "t").unwrap();
    for (q, y) in qs.iter().zip(&values(&out)) {
        assert_eq!(*y, 2.0 * f32::from(*q));
    }
}

#[test]
fn q8_0_reference_roundtrip_recovers_integers_exactly() {
    // every block contains -127, so amax = 127 and d = 1.0 exactly
    let vals: Vec<f32> = (0..64).map(|i| ((i % 32) * 4) as f32 - 127.0).collect();
    let bytes = quantize_q8_0_ref(&vals);
    let out = dequantize(GGML_Q8_0, &bytes, 64, 32, "t").unwrap();
    assert_eq!(vals, values(&out));
}

#[test]
fn q8_0_rejects_non_multiple_of_32() {
    match tensor_byte_len(GGML_Q8_0, 66, 33, "t") {
        Err(LoaderError::Structure { reason }) => assert!(reason.contains("32"), "{reason}"),
        other => panic!("{other:?}"),
    }
}

#[test]
fn wrong_byte_count_is_refused() {
    let bytes = f32_bytes(&[1.0, 2.0]);
    match dequantize(GGML_F32, &bytes, 3, 3, "t") {
        Err(LoaderError::Structure { reason }) => assert!(reason.contains("bytes"), "{reason}"),
        other => panic!("{other:?}"),
    }
}

#[test]
fn unsupported_type_names_itself_and_the_supported_list() {
    match tensor_byte_len(2, 32, 32, "blk.0.ffn_up.weight") {
        Err(e @ LoaderError::UnsupportedTensorType { type_id: 2, .. }) => {
            let msg = e.to_string();
            assert!(
                msg.contains("blk.0.ffn_up.weight") && msg.contains("Q8_0"),
                "{msg}"
            );
        }
        other => panic!("{other:?}"),
    }
}

#[test]
fn inconsistent_elems_and_rows_are_refused() {
    match tensor_byte_len(GGML_Q8_0, 33, 32, "t") {
        Err(LoaderError::Structure { reason }) => {
            assert!(reason.contains("rows"), "{reason}")
        }
        other => panic!("{other:?}"),
    }
}

#[test]
fn f32_nan_or_inf_values_are_refused() {
    let vals = [1.0f32, f32::NAN];
    match dequantize(GGML_F32, &f32_bytes(&vals), 2, 2, "t") {
        Err(LoaderError::Structure { reason }) => {
            assert!(reason.contains("non-finite"), "{reason}")
        }
        other => panic!("{other:?}"),
    }
    let vals = [f32::INFINITY, 0.0];
    match dequantize(GGML_F32, &f32_bytes(&vals), 2, 2, "t") {
        Err(LoaderError::Structure { reason }) => {
            assert!(reason.contains("non-finite"), "{reason}")
        }
        other => panic!("{other:?}"),
    }
}

#[test]
fn q8_0_nan_or_inf_scale_is_refused() {
    // one block: NaN scale in f16 (0x7E00 is a quiet NaN) + 32 zeros
    let mut block = Vec::new();
    block.extend_from_slice(&half::f16::from_bits(0x7E00).to_le_bytes());
    block.extend(std::iter::repeat(0u8).take(32));
    match dequantize(GGML_Q8_0, &block, 32, 32, "t") {
        Err(LoaderError::Structure { reason }) => {
            assert!(reason.contains("non-finite"), "{reason}")
        }
        other => panic!("{other:?}"),
    }
}

#[test]
fn byte_lengths_follow_the_type_formulas() {
    assert_eq!(tensor_byte_len(GGML_F32, 6, 3, "t").unwrap(), 24);
    assert_eq!(tensor_byte_len(GGML_Q8_0, 64, 32, "t").unwrap(), 68);
    match tensor_byte_len(GGML_F32, u64::MAX, 1, "t") {
        Err(LoaderError::Structure { reason }) => assert!(reason.contains("overflows"), "{reason}"),
        other => panic!("{other:?}"),
    }
}

#[test]
fn decoded_length_is_the_element_count() {
    let out = dequantize(GGML_Q8_0, &quantize_q8_0_ref(&[0.5f32; 64]), 64, 32, "t").unwrap();
    assert_eq!(out.len(), 64);
}

#[test]
fn plain_float_types_are_not_block_quantized() {
    for t in [0u32, 1, 24, 25, 26, 27, 28, 30] {
        assert!(!is_quantized(t), "{t}");
    }
    for t in [2u32, 8, 12, 29] {
        assert!(is_quantized(t), "{t}");
    }
}
