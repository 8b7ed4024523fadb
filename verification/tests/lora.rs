use tpt_local_ai::safetensors::Dtype;
use tpt_local_ai::lora::{
    adapter_pairs, bf16_from_f32_bits, f16_from_f32_bits, f32_bits_from_bf16_bits, f32_bits_from_f16_bits, pair_dims, merged_dtype, is_adapter_tensor, sort_texts, unused_adapter_tensors, weight_stem, MergeError,
};

#[test]
fn adapter_tensor_names() {
    assert!(is_adapter_tensor("w.lora_A.weight"));
    assert!(is_adapter_tensor("w.lora_up.weight"));
    assert!(is_adapter_tensor("w.alpha"));
    assert!(is_adapter_tensor("w.lora_alpha"));
    assert!(!is_adapter_tensor("w.weight"));
    assert!(!is_adapter_tensor("alpha"));
}

#[test]
fn weight_stems() {
    assert_eq!(weight_stem("a.b.weight"), "a.b");
    assert_eq!(weight_stem("bias"), "bias");
}

#[test]
fn peft_and_kohya_pairs_are_found() {
    let names = vec!["w.lora_A.weight", "w.lora_B.weight", "w.lora_down.weight", "w.lora_up.weight"];
    let (pairs, partial) = adapter_pairs(&names, "w");
    assert!(partial.is_none());
    assert_eq!(
        pairs,
        vec![
            ("w.lora_A.weight".to_string(), "w.lora_B.weight".to_string()),
            ("w.lora_down.weight".to_string(), "w.lora_up.weight".to_string()),
        ]
    );
}

#[test]
fn half_pair_is_reported() {
    let names = vec!["w.lora_A.weight"];
    let (pairs, partial) = adapter_pairs(&names, "w");
    assert!(pairs.is_empty());
    match partial {
        Some(MergeError::PartialAdapterPair { module, found, missing }) => {
            assert_eq!(module, "w");
            assert_eq!(found, "w.lora_A.weight");
            assert_eq!(missing, "w.lora_B.weight");
        }
        other => panic!("unexpected {other:?}"),
    }
}

#[test]
fn named_adapters_pair_with_their_b_matrix() {
    let names = vec!["m.lora_A.style.weight", "m.lora_B.style.weight", "m.lora_A.x.weight"];
    let (pairs, partial) = adapter_pairs(&names, "m");
    assert_eq!(pairs, vec![("m.lora_A.style.weight".to_string(), "m.lora_B.style.weight".to_string())]);
    assert!(matches!(partial, Some(MergeError::PartialAdapterPair { .. })));
}

#[test]
fn unused_tensors_are_listed_and_sorted() {
    let names = vec!["z.lora_B.weight", "z.lora_A.weight", "w.lora_A.weight", "norm.weight"];
    let used = vec!["w.lora_A.weight".to_string()];
    let unused = unused_adapter_tensors(&names, &used);
    assert_eq!(unused, vec!["z.lora_B.weight".to_string(), "z.lora_A.weight".to_string()]);
    assert_eq!(sort_texts(unused), vec!["z.lora_A.weight".to_string(), "z.lora_B.weight".to_string()]);
    let mut v = vec!["b".to_string(), "ab".to_string(), "a".to_string(), "é".to_string(), "Z".to_string()];
    let sorted = sort_texts(v.clone());
    v.sort();
    assert_eq!(sorted, v);
}

#[test]
fn half_precision_bits_round_to_nearest_even() {
    let h = |x: f32| f16_from_f32_bits(x.to_bits());
    assert_eq!(h(1.0), 0x3c00);
    assert_eq!(h(2.0), 0x4000);
    assert_eq!(h(-0.0), 0x8000);
    assert_eq!(h(65504.0), 0x7bff);
    assert_eq!(h(65520.0), 0x7c00);
    assert_eq!(h(1e10), 0x7c00);
    assert_eq!(h(f32::INFINITY), 0x7c00);
    assert_eq!(h(f32::NAN), 0x7e00);
    assert_eq!(h(2f32.powi(-24)), 0x0001);
    assert_eq!(h(2f32.powi(-26)), 0x0000);
    assert_eq!(h(1.0 + 2f32.powi(-11)), 0x3c00);
    assert_eq!(h(1.0 + 3.0 * 2f32.powi(-11)), 0x3c02);
}

#[test]
fn bfloat16_bits_round_to_nearest_even() {
    let b = |bits: u32| bf16_from_f32_bits(bits);
    assert_eq!(b(1.0f32.to_bits()), 0x3f80);
    assert_eq!(b(0x3f80_8000), 0x3f80);
    assert_eq!(b(0x3f81_8000), 0x3f82);
    assert_eq!(b(f32::NAN.to_bits()), 0x7fc0);
    assert_eq!(b(f32::INFINITY.to_bits()), 0x7f80);
}

#[test]
fn merged_values_keep_float_base_types() {
    assert_eq!(merged_dtype(Dtype::BF16), Dtype::BF16);
    assert_eq!(merged_dtype(Dtype::F64), Dtype::F64);
    assert_eq!(merged_dtype(Dtype::I8), Dtype::F32);
}

#[test]
fn partial_adapter_pair_errors() {
    // The adapter file holds only the A side of module `w`.
    let lora_names = vec!["w.lora_A.weight"];
    let (pairs, partial) = adapter_pairs(&lora_names, &weight_stem("w.weight"));
    assert!(pairs.is_empty());
    assert!(matches!(partial, Some(MergeError::PartialAdapterPair { .. })), "{partial:?}");
}

#[test]
fn unused_adapter_tensors_error() {
    // The adapter targets a module (`other`) that the base does not have.
    let lora_names = vec!["other.lora_A.weight", "other.lora_B.weight"];
    let (pairs, partial) = adapter_pairs(&lora_names, &weight_stem("w.weight"));
    assert!(pairs.is_empty());
    assert!(partial.is_none());
    let unused = unused_adapter_tensors(&lora_names, &Vec::new());
    assert_eq!(unused, vec!["other.lora_A.weight".to_string(), "other.lora_B.weight".to_string()]);
}

#[test]
fn f32_to_f16_round_trip() {
    assert_eq!(f32_bits_from_f16_bits(0x3c00), 1.0f32.to_bits());
    assert_eq!(f32::from_bits(f32_bits_from_f16_bits(0x0001)), 2f32.powi(-24));
    assert_eq!(f32::from_bits(f32_bits_from_f16_bits(0x03ff)), 1023.0 * 2f32.powi(-24));
    assert_eq!(f32::from_bits(f32_bits_from_f16_bits(0xc000)), -2.0);
    assert_eq!(f32::from_bits(f32_bits_from_f16_bits(0x7c00)), f32::INFINITY);
    assert!(f32::from_bits(f32_bits_from_f16_bits(0x7e00)).is_nan());
    assert_eq!(f16_from_f32_bits(1.0f32.to_bits()), 0x3c00);
    assert_eq!(f16_from_f32_bits(65520.0f32.to_bits()), 0x7c00);
    assert_eq!(f16_from_f32_bits(2f32.powi(-25).to_bits()), 0x0000);
    for h in 0..=u16::MAX {
        let is_nan = (h >> 10) & 0x1f == 0x1f && h & 0x3ff != 0;
        let back = f16_from_f32_bits(f32_bits_from_f16_bits(h));
        if is_nan {
            assert!((back >> 10) & 0x1f == 0x1f && back & 0x3ff != 0);
        } else {
            assert_eq!(back, h);
        }
        let bf_nan = (h >> 7) & 0xff == 0xff && h & 0x7f != 0;
        if !bf_nan {
            assert_eq!(bf16_from_f32_bits(f32_bits_from_bf16_bits(h)), h);
        }
    }
}

#[test]
fn adapter_pair_shapes_are_checked() {
    assert_eq!(pair_dims("a", "b", 2, 3, 4, 2, None).unwrap(), (4, 3));
    assert_eq!(pair_dims("a", "b", 2, 3, 4, 2, Some((4, 3))).unwrap(), (4, 3));
    match pair_dims("a", "b", 2, 3, 4, 5, None) {
        Err(MergeError::Shape(m)) => assert_eq!(m, "a/b inner ranks disagree: A rows 2, B cols 5"),
        other => panic!("unexpected {other:?}"),
    }
    assert!(matches!(pair_dims("a", "b", 2, 3, 4, 2, Some((4, 4))), Err(MergeError::Shape(_))));
}

#[test]
fn f16_rounding_is_nearest_even_below_the_normal_range() {
    let ulp = 2f32.powi(-24);
    assert_eq!(f16_from_f32_bits(ulp.to_bits()), 0x0001);
    assert_eq!(f16_from_f32_bits((1.5 * ulp).to_bits()), 0x0002);
    assert_eq!(f16_from_f32_bits((2.5 * ulp).to_bits()), 0x0002);
    assert_eq!(f16_from_f32_bits((-2.6 * ulp).to_bits()), 0x8003);
    assert_eq!(f16_from_f32_bits((0.5 * ulp).to_bits()), 0x0000);
    assert_eq!(f16_from_f32_bits((0.75 * ulp).to_bits()), 0x0001);
    assert_eq!(f16_from_f32_bits(1.00048828125f32.to_bits()), 0x3c00);
    assert_eq!(f16_from_f32_bits(1.00146484375f32.to_bits()), 0x3c02);
}
