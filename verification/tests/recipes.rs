//! What recipes make of a file and of a sample.

use oxideav_mp4::cenc::{
    plan_sample_cipher, CencScheme, CipherCase, CipherStepKind, IvSupply, SubsampleEntry,
};
use oxideav_mp4::mutate::{mutate, TARGETS};
use oxideav_mp4::recipe::Recipe;

fn mutant(file: &[u8], ops: &[u8], aimed: bool) -> Vec<u8> {
    mutate(file.to_vec(), &mut Recipe::new(ops), aimed)
}

#[test]
fn flip_turns_over_bits_of_one_byte() {
    // one operation, a flip at 9 % 4 = 1 with 0x0F
    assert_eq!(mutant(b"abcd", &[0, 0, 0, 0, 0, 9, 0x0F], true), b"amcd");
    // no bits asked for: the lowest one
    assert_eq!(mutant(b"abcd", &[0, 1, 0, 0, 0, 2, 0], true), b"abbd");
    // an empty recipe flips the first byte
    assert_eq!(mutant(b"abcd", &[], true), b"`bcd");
}

#[test]
fn cut_is_the_last_operation() {
    // three operations: the second cuts at 7 % 5 = 2, the third is not read
    let ops = [2, 0, 0, 0, 0, 0, 1, 2, 0, 0, 0, 7, 0, 0, 0, 0, 0, 0xFF];
    assert_eq!(mutant(b"abcd", &ops, true), b"`b");
    assert_eq!(mutant(b"abcd", &[0, 2, 0, 0, 0, 5], true), b"");
    assert_eq!(mutant(b"abcd", &[0, 2, 0, 0, 0, 4], true), b"abcd");
}

#[test]
fn aimed_operation_overwrites_behind_the_type() {
    let mut file = b"....stts".to_vec();
    file.extend_from_slice(&[9; 12]);
    // one operation, aimed at stts, first place, 4 bytes behind it, 4 + 1 bytes
    let after = mutant(&file, &[0, 3, 0, 0, 0, 1, 1, 2, 3, 4, 5], true);
    assert_eq!(&after[..8], b"....stts");
    assert_eq!(&after[8..], &[1, 2, 3, 4, 5, 9, 9, 9, 9, 9, 9, 9]);
    // further behind it, and past the end
    let after = mutant(&file, &[0, 3, 0, 0, 2, 12, 1, 2, 3, 4, 5, 6], true);
    assert_eq!(&after[8..], &[9, 9, 9, 9, 9, 9, 9, 9, 1, 2, 3, 4]);
    // the last of the types, which the file does not hold
    assert_eq!(mutant(&file, &[0, 3, TARGETS - 1, 0, 0, 0], true), file);
    // a type at the very end has nothing behind it
    assert_eq!(mutant(b"....stts", &[0, 3, 0, 0, 0, 0], true), b"....stts");
    // without aim the same operation is a flip
    assert_eq!(mutant(b"abcd", &[0, 3, 0, 0, 0, 3, 0x20], false), b"abcD");
}

#[test]
fn mutants_are_no_longer_and_nothing_comes_of_nothing() {
    assert_eq!(mutant(b"", &[7, 0, 1, 2, 3], true), b"");
    let file: Vec<u8> = (0..200u32).map(|i| (i * 7) as u8).collect();
    for seed in 0..=255u8 {
        let ops: Vec<u8> = (0..64u32)
            .map(|i| seed.wrapping_mul(31).wrapping_add((i * 13) as u8))
            .collect();
        assert!(mutant(&file, &ops, seed % 2 == 0).len() <= file.len());
    }
}

#[test]
fn empty_recipe_is_a_sample_in_counter_mode() {
    let c = CipherCase::decode(&mut Recipe::new(&[])).unwrap();
    assert_eq!(c.decision.scheme, CencScheme::Cenc);
    assert_eq!(c.decision.iv_supply(), IvSupply::PerSample { size: 8 });
    assert_eq!(c.key, [0; 16]);
    assert_eq!(c.iv, Some(vec![0; 8]));
    assert_eq!(c.subsamples, None);
    assert_eq!(c.data, vec![0xA5]);
}

#[test]
fn pattern_case_is_read_field_by_field() {
    let mut b = vec![3, 1, 1]; // cbcs, a constant IV, sixteen bytes wide
    b.extend_from_slice(&[0xC1; 16]);
    b.extend_from_slice(&[0, 9]); // one block encrypted, nine clear
    b.extend_from_slice(&[0x1D; 16]);
    b.extend_from_slice(&[0x4E; 16]);
    b.extend_from_slice(&[0, 0, 1, 1, 1]); // two subsamples in whole blocks
    b.extend_from_slice(&[3, 0, 47]);
    b.extend_from_slice(&[0, 0, 15]); // empty once it is cut to blocks
    b.extend_from_slice(&[7; 20]);
    let mut r = Recipe::new(&b);
    let c = CipherCase::decode(&mut r).unwrap();
    assert_eq!(r.rest(), &[] as &[u8]);
    let t = &c.decision.tenc;
    assert_eq!(c.decision.scheme, CencScheme::Cbcs);
    assert_eq!(t.version, 1);
    assert_eq!(t.default_constant_iv, Some(vec![0xC1; 16]));
    assert_eq!((t.default_crypt_byte_block, t.default_skip_byte_block), (1, 9));
    assert_eq!(t.default_kid, [0x1D; 16]);
    assert_eq!(c.key, [0x4E; 16]);
    assert_eq!(c.iv, None);
    let row = SubsampleEntry { bytes_of_clear_data: 3, bytes_of_protected_data: 32 };
    assert_eq!(c.subsamples, Some(vec![row]));
    assert_eq!(c.data.len(), 35);
    assert_eq!(&c.data[..20], &[7; 20]);
    assert_eq!(&c.data[20..], &[0xA5; 15]);
    let plan = plan_sample_cipher(&c.decision, c.subsamples.as_deref(), 35).unwrap();
    let steps: Vec<_> = plan.iter().map(|s| (s.offset, s.len, s.kind)).collect();
    assert_eq!(
        steps,
        vec![
            (0, 3, CipherStepKind::Clear),
            (3, 16, CipherStepKind::Encrypted),
            (19, 16, CipherStepKind::Clear),
        ]
    );
}

#[test]
fn every_case_has_a_plan() {
    let mut none = 0;
    for seed in 0..2_000u32 {
        let start = seed.wrapping_mul(2_654_435_761);
        let b: Vec<u8> = (0..96u32)
            .map(|i| (start.wrapping_add(i.wrapping_mul(40_503)) >> 11) as u8)
            .collect();
        match CipherCase::decode(&mut Recipe::new(&b)) {
            Some(c) => {
                let len = c.data.len() as u64;
                let plan = plan_sample_cipher(&c.decision, c.subsamples.as_deref(), len).unwrap();
                assert_eq!(plan.iter().map(|s| s.len).sum::<u64>(), len);
            }
            None => none += 1,
        }
    }
    assert!(none < 2_000);
}

#[test]
fn subsamples_that_are_all_empty_make_no_case() {
    let mut b = vec![0, 0];
    b.extend_from_slice(&[0; 16 + 16 + 8]);
    b.extend_from_slice(&[0, 0, 1]);
    assert!(CipherCase::decode(&mut Recipe::new(&b)).is_none());
    // One empty subsample, which is read all the same.
    b.extend_from_slice(&[0, 0, 0, 0, 0, 77]);
    let mut r = Recipe::new(&b);
    assert!(CipherCase::decode(&mut r).is_none());
    assert_eq!(r.rest(), &[77]);
}
