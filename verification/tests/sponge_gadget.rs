use sponge_gadget::arith::bit_length;
use sponge_gadget::constraints::bits_le_to_nonnative;
use sponge_gadget::domain::DomainSeparatedSpongeVar;
use sponge_gadget::gadgets::{fp_value, BooleanVar, FpVar};
use sponge_gadget::nonnative::{get_limbs_representations, get_params, NonNativeParams, TargetField};
use sponge_gadget::r1cs::ConstraintSystem;
use sponge_gadget::simple::{SimpleSponge, SimpleSpongeVar};
use sponge_gadget::sponge::{CryptographicSpongeVar, FieldElementSize};

const P_CF: u64 = 1_000_003;
const P_F: u64 = 251;

fn const_bits(vals: &[bool], cs: &ConstraintSystem) -> Vec<BooleanVar> {
    vals.iter().map(|b| BooleanVar::constant(*b, cs)).collect()
}

fn bit_values(bits: &[BooleanVar]) -> Vec<bool> {
    bits.iter().map(|b| b.value).collect()
}

fn limb_values(g: &sponge_gadget::nonnative::NonNativeFieldVar) -> Vec<u64> {
    g.limbs.iter().map(fp_value).collect()
}

#[test]
fn test_bit_length() {
    assert_eq!(bit_length(0), 0);
    assert_eq!(bit_length(1), 1);
    assert_eq!(bit_length(251), 8);
    assert_eq!(bit_length(1_000_003), 20);
    assert_eq!(bit_length(u64::MAX), 64);
}

#[test]
fn test_get_params() {
    let p = get_params(8, 20);
    assert_eq!(p, NonNativeParams { num_limbs: 1, bits_per_limb: 8 });
    let p2 = get_params(8, 16);
    assert_eq!(p2, NonNativeParams { num_limbs: 2, bits_per_limb: 7 });
}

#[test]
fn test_limbs_representations() {
    let params = NonNativeParams { num_limbs: 2, bits_per_limb: 4 };
    let limbs = get_limbs_representations(0xAB, &params);
    assert_eq!(limbs, vec![0xB, 0xA]);
    let params1 = NonNativeParams { num_limbs: 1, bits_per_limb: 8 };
    assert_eq!(get_limbs_representations(200, &params1), vec![200]);
}

#[test]
fn test_reconstruct_single() {
    let mut cs = ConstraintSystem::new(P_CF);
    let target = TargetField { modulus: P_F };
    // little-endian bits of 5
    let bits = const_bits(&[true, false, true], &cs);
    let out = bits_le_to_nonnative(&mut cs, &target, &vec![bits]).unwrap();
    assert_eq!(out.len(), 1);
    assert!(out[0].is_in_the_normal_form);
    assert_eq!(out[0].num_of_additions_over_normal_form, 0);
    assert_eq!(limb_values(&out[0]), vec![5]);
    assert!(cs.is_satisfied());
    // one limb allocated, one constraint enforced
    assert_eq!(cs.assignment.len(), 2);
    assert_eq!(cs.constraints.len(), 1);
}

#[test]
fn test_reconstruct_unreduced_columns() {
    // eight ones: the column sum is 255, whose reduction into the
    // target field is 255 mod 251 == 4
    let mut cs = ConstraintSystem::new(P_CF);
    let target = TargetField { modulus: P_F };
    let bits = const_bits(&[true; 8], &cs);
    let out = bits_le_to_nonnative(&mut cs, &target, &vec![bits]).unwrap();
    assert_eq!(limb_values(&out[0]), vec![255]);
    assert!(cs.is_satisfied());
}

#[test]
fn test_reconstruct_two_limbs() {
    // a smaller circuit field forces two limbs of seven bits
    let mut cs = ConstraintSystem::new(40961);
    let target = TargetField { modulus: P_F };
    let v: Vec<bool> = (0..8).map(|i| (200u64 >> i) & 1 == 1).collect();
    let bits = const_bits(&v, &cs);
    let out = bits_le_to_nonnative(&mut cs, &target, &vec![bits]).unwrap();
    assert_eq!(limb_values(&out[0]), vec![72, 1]);
    assert!(cs.is_satisfied());
}

#[test]
fn test_constraint_soundness_tamper() {
    let mut cs = ConstraintSystem::new(P_CF);
    let target = TargetField { modulus: P_F };
    let bits = const_bits(&[true, false, true], &cs);
    let out = bits_le_to_nonnative(&mut cs, &target, &vec![bits]).unwrap();
    assert!(cs.is_satisfied());
    let idx = match out[0].limbs[0] {
        FpVar::Witness { index, .. } => index,
        _ => panic!("limb should be an allocated witness"),
    };
    let mut bad = cs.assignment.clone();
    bad[idx] = (bad[idx] + 1) % P_CF;
    assert!(!cs.is_satisfied_under(&bad));
}

#[test]
fn test_batch_independence() {
    let target = TargetField { modulus: P_F };
    let a = [true, true, false, true];
    let b = [false, true];
    // one batched call
    let mut cs1 = ConstraintSystem::new(P_CF);
    let batch = vec![const_bits(&a, &cs1), const_bits(&b, &cs1)];
    let both = bits_le_to_nonnative(&mut cs1, &target, &batch).unwrap();
    // each alone
    let mut cs2 = ConstraintSystem::new(P_CF);
    let batch_a = vec![const_bits(&a, &cs2)];
    let only_a = bits_le_to_nonnative(&mut cs2, &target, &batch_a).unwrap();
    let mut cs3 = ConstraintSystem::new(P_CF);
    let batch_b = vec![const_bits(&b, &cs3)];
    let only_b = bits_le_to_nonnative(&mut cs3, &target, &batch_b).unwrap();
    assert_eq!(limb_values(&both[0]), limb_values(&only_a[0]));
    assert_eq!(limb_values(&both[1]), limb_values(&only_b[0]));
}

#[test]
fn test_empty_batch() {
    let mut cs = ConstraintSystem::new(P_CF);
    let target = TargetField { modulus: P_F };
    let out = bits_le_to_nonnative(&mut cs, &target, &Vec::new()).unwrap();
    assert!(out.is_empty());
    assert_eq!(cs.assignment.len(), 1);
    assert_eq!(cs.constraints.len(), 0);
}

#[test]
fn test_empty_sizes() {
    let mut cs = ConstraintSystem::new(P_CF);
    let target = TargetField { modulus: P_F };
    let mut s = SimpleSpongeVar::new();
    s.absorb(&mut cs, &vec![FpVar::Constant(1)]).unwrap();
    let (gadgets, chunks) = s
        .squeeze_nonnative_field_elements_with_sizes(&mut cs, &target, &Vec::new())
        .unwrap();
    assert!(gadgets.is_empty());
    assert!(chunks.is_empty());
    assert_eq!(cs.assignment.len(), 1);
    assert_eq!(cs.constraints.len(), 0);
    // nothing was squeezed: the stream starts where a fresh twin starts
    let mut cs2 = ConstraintSystem::new(P_CF);
    let mut t = SimpleSpongeVar::new();
    t.absorb(&mut cs2, &vec![FpVar::Constant(1)]).unwrap();
    let from_s = s.squeeze_bits(&mut cs, 32).unwrap();
    let from_t = t.squeeze_bits(&mut cs2, 32).unwrap();
    assert_eq!(bit_values(&from_s), bit_values(&from_t));
}

#[test]
fn test_squeeze_sizes_consistency() {
    let sizes = vec![
        FieldElementSize::Truncated { num_bits: 128 },
        FieldElementSize::Truncated { num_bits: 180 },
        FieldElementSize::Full,
    ];
    let target = TargetField { modulus: P_F };

    let mut cs = ConstraintSystem::new(P_CF);
    let mut s = SimpleSpongeVar::new();
    s.absorb(&mut cs, &vec![FpVar::Constant(1)]).unwrap();
    let (gadgets, chunks) = s
        .squeeze_nonnative_field_elements_with_sizes(&mut cs, &target, &sizes)
        .unwrap();
    assert_eq!(gadgets.len(), 3);
    assert_eq!(chunks.len(), 3);
    assert_eq!(chunks[0].len(), 128);
    assert_eq!(chunks[1].len(), 180);
    assert_eq!(chunks[2].len(), 8);

    // squeezing the total bit count once and slicing gives the same bits
    let mut cs2 = ConstraintSystem::new(P_CF);
    let mut t = SimpleSpongeVar::new();
    t.absorb(&mut cs2, &vec![FpVar::Constant(1)]).unwrap();
    let flat = t.squeeze_bits(&mut cs2, 128 + 180 + 8).unwrap();
    let flat_vals = bit_values(&flat);
    assert_eq!(bit_values(&chunks[0]), flat_vals[..128].to_vec());
    assert_eq!(bit_values(&chunks[1]), flat_vals[128..308].to_vec());
    assert_eq!(bit_values(&chunks[2]), flat_vals[308..].to_vec());

    // and both streams keep advancing in step afterwards
    let more_s = s.squeeze_bits(&mut cs, 16).unwrap();
    let more_t = t.squeeze_bits(&mut cs2, 16).unwrap();
    assert_eq!(bit_values(&more_s), bit_values(&more_t));
}

#[test]
fn test_sized_vs_full() {
    let target = TargetField { modulus: P_F };
    let mut cs = ConstraintSystem::new(P_CF);
    let mut s = SimpleSpongeVar::new();
    s.absorb(&mut cs, &vec![FpVar::Constant(9)]).unwrap();
    let (g1, c1) = s.squeeze_nonnative_field_elements(&mut cs, &target, 2).unwrap();

    let mut cs2 = ConstraintSystem::new(P_CF);
    let mut t = SimpleSpongeVar::new();
    t.absorb(&mut cs2, &vec![FpVar::Constant(9)]).unwrap();
    let sizes = vec![FieldElementSize::Full, FieldElementSize::Full];
    let (g2, c2) = t
        .squeeze_nonnative_field_elements_with_sizes(&mut cs2, &target, &sizes)
        .unwrap();
    assert_eq!(g1.len(), 2);
    assert_eq!(g2.len(), 2);
    for i in 0..2 {
        assert_eq!(bit_values(&c1[i]), bit_values(&c2[i]));
        assert_eq!(limb_values(&g1[i]), limb_values(&g2[i]));
    }
}

#[test]
fn test_domain_separation_idempotent() {
    // the tag is absorbed once, before the first payload, and never again
    let mut cs = ConstraintSystem::new(P_CF);
    let mut w = DomainSeparatedSpongeVar::new(SimpleSpongeVar::new(), vec![7, 9]);
    w.absorb(&mut cs, &vec![FpVar::Constant(3)]).unwrap();
    w.absorb(&mut cs, &vec![FpVar::Constant(4)]).unwrap();
    let from_wrapper = w.squeeze_bits(&mut cs, 64).unwrap();

    // the same transcript fed by hand: tag once, then both payloads
    let mut cs2 = ConstraintSystem::new(P_CF);
    let mut plain = SimpleSpongeVar::new();
    plain
        .absorb(&mut cs2, &vec![FpVar::Constant(7), FpVar::Constant(9)])
        .unwrap();
    plain.absorb(&mut cs2, &vec![FpVar::Constant(3)]).unwrap();
    plain.absorb(&mut cs2, &vec![FpVar::Constant(4)]).unwrap();
    let by_hand = plain.squeeze_bits(&mut cs2, 64).unwrap();

    assert_eq!(bit_values(&from_wrapper), bit_values(&by_hand));
}

#[test]
fn test_domain_separation_distinct() {
    let mut cs1 = ConstraintSystem::new(P_CF);
    let mut w1 = DomainSeparatedSpongeVar::new(SimpleSpongeVar::new(), vec![1]);
    w1.absorb(&mut cs1, &vec![FpVar::Constant(5)]).unwrap();
    let b1 = w1.squeeze_bits(&mut cs1, 128).unwrap();

    let mut cs2 = ConstraintSystem::new(P_CF);
    let mut w2 = DomainSeparatedSpongeVar::new(SimpleSpongeVar::new(), vec![2]);
    w2.absorb(&mut cs2, &vec![FpVar::Constant(5)]).unwrap();
    let b2 = w2.squeeze_bits(&mut cs2, 128).unwrap();

    assert_ne!(bit_values(&b1), bit_values(&b2));
}

#[test]
fn test_squeeze_bytes() {
    let mut cs = ConstraintSystem::new(P_CF);
    let mut s = SimpleSpongeVar::new();
    s.absorb(&mut cs, &vec![FpVar::Constant(2)]).unwrap();
    let bytes = s.squeeze_bytes(&mut cs, 2).unwrap();
    assert_eq!(bytes.len(), 2);

    let mut cs2 = ConstraintSystem::new(P_CF);
    let mut t = SimpleSpongeVar::new();
    t.absorb(&mut cs2, &vec![FpVar::Constant(2)]).unwrap();
    let bits = t.squeeze_bits(&mut cs2, 16).unwrap();
    let flat = bit_values(&bits);
    assert_eq!(bit_values(&bytes[0].bits), flat[..8].to_vec());
    assert_eq!(bit_values(&bytes[1].bits), flat[8..].to_vec());
}

#[test]
fn test_squeeze_field_elements() {
    let mut cs = ConstraintSystem::new(P_CF);
    let mut s = SimpleSpongeVar::new();
    s.absorb(&mut cs, &vec![FpVar::Constant(2)]).unwrap();
    let elems = s.squeeze_field_elements(&mut cs, 1).unwrap();
    assert_eq!(elems.len(), 1);
    let v = fp_value(&elems[0]);
    assert!(v < P_CF);

    // the element is the next 19 stream bits, least significant first
    let mut cs2 = ConstraintSystem::new(P_CF);
    let mut t = SimpleSpongeVar::new();
    t.absorb(&mut cs2, &vec![FpVar::Constant(2)]).unwrap();
    let bits = t.squeeze_bits(&mut cs2, 19).unwrap();
    let mut expect: u64 = 0;
    for (j, b) in bit_values(&bits).iter().enumerate() {
        if *b {
            expect += 1u64 << j;
        }
    }
    assert_eq!(v, expect);
}

#[test]
fn test_size_descriptor_bits() {
    let target = TargetField { modulus: P_F };
    assert_eq!(FieldElementSize::Full.num_bits(&target), 8);
    assert_eq!(
        FieldElementSize::Truncated { num_bits: 128 }.num_bits(&target),
        128
    );
}

#[test]
fn test_wrapper_nonnative_squeeze_separates() {
    // the inherited non-native squeeze goes through the wrapper's own
    // bit squeeze, so the tag still comes first
    let target = TargetField { modulus: P_F };
    let sizes = vec![FieldElementSize::Truncated { num_bits: 40 }];

    let mut cs = ConstraintSystem::new(P_CF);
    let mut w = DomainSeparatedSpongeVar::new(SimpleSpongeVar::new(), vec![11]);
    let (gadgets, chunks) = w
        .squeeze_nonnative_field_elements_with_sizes(&mut cs, &target, &sizes)
        .unwrap();
    assert_eq!(gadgets.len(), 1);

    let mut cs2 = ConstraintSystem::new(P_CF);
    let mut plain = SimpleSpongeVar::new();
    plain.absorb(&mut cs2, &vec![FpVar::Constant(11)]).unwrap();
    let bits = plain.squeeze_bits(&mut cs2, 40).unwrap();
    assert_eq!(bit_values(&chunks[0]), bit_values(&bits));
}

#[test]
fn test_end_to_end() {
    // absorb the field element 1, then squeeze 128-, 180- and full-size
    // target elements in one call; the in-circuit sponge consumes
    // exactly 128+180+8 bits, and its stream matches the native sponge
    // bit for bit
    let sizes = vec![
        FieldElementSize::Truncated { num_bits: 128 },
        FieldElementSize::Truncated { num_bits: 180 },
        FieldElementSize::Full,
    ];
    let target = TargetField { modulus: P_F };

    let mut cs = ConstraintSystem::new(P_CF);
    let mut var = SimpleSpongeVar::new();
    var.absorb(&mut cs, &vec![FpVar::Constant(1)]).unwrap();
    let (gadgets, chunks) = var
        .squeeze_nonnative_field_elements_with_sizes(&mut cs, &target, &sizes)
        .unwrap();
    assert_eq!(gadgets.len(), 3);
    let consumed: usize = chunks.iter().map(|c| c.len()).sum();
    assert_eq!(consumed, 128 + 180 + 8);

    let mut native = SimpleSponge::new();
    native.absorb(&vec![1]);
    let native_bits = native.squeeze_bits(consumed);
    let circuit_bits: Vec<bool> = chunks.iter().flat_map(|c| bit_values(c)).collect();
    assert_eq!(circuit_bits, native_bits);

    // both continue in step after the squeeze
    let more_native = native.squeeze_bits(12);
    let more_var = var.squeeze_bits(&mut cs, 12).unwrap();
    assert_eq!(bit_values(&more_var), more_native);

    assert!(cs.is_satisfied());
}
