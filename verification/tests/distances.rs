use apotheosis::controllers::occlusion::{default_factor, PruneFactor};
use apotheosis::datalayer::algorithms::{
    medoid_index, DistanceAlgorithm, Medoid, NormalDistance, SsdeepDistance, SsdeepHash,
    TlshDistance, TlshHash,
};
use apotheosis::datalayer::record::{ApotheosisRecord, RadixKeyMapping, SimpleTlshRecord};
use tlsh2::TlshDefault;

const A: &str = "T1008100007FFA5C48F0F33EB5AEB455158576FE205AB2CA6D51A4828F24B2B408961F3B";
const B: &str = "T1018100007FFA5C48F0F33EB5AEB455158576FE205AB2CA6D51A4828F24B2B408961F3C";

fn digest(text: &str) -> TlshHash {
    TlshHash::parse(text).unwrap()
}

#[test]
fn normal_distance_is_the_absolute_difference() {
    assert_eq!(NormalDistance.calculate_distance(&3, &10), 7);
    assert_eq!(NormalDistance.calculate_distance(&10, &3), 7);
    assert_eq!(NormalDistance.calculate_distance(&0, &u32::MAX), u32::MAX);
    assert_eq!(NormalDistance.calculate_distance(&5, &5), 0);
}

#[test]
fn tlsh_text_is_the_prefix_and_seventy_digits() {
    assert!(TlshHash::parse(A).is_some());
    assert!(TlshHash::parse(&A.to_lowercase()).is_none());
    assert!(TlshHash::parse(&format!("T1{}", A[2..].to_lowercase())).is_some());
    assert!(TlshHash::parse(&A[2..]).is_none());
    assert!(TlshHash::parse(&A[..71]).is_none());
    assert!(TlshHash::parse(&format!("{A}0")).is_none());
    assert!(TlshHash::parse(&A.replace('F', "G")).is_none());
    assert!(TlshHash::parse("TNULL").is_none());
    assert!(TlshHash::parse("").is_none());
}

#[test]
fn tlsh_hash_is_canonical() {
    let lower = format!("T1{}", A[2..].to_lowercase());
    assert_eq!(digest(&lower).hash(), A.as_bytes().to_vec());
    assert_eq!(digest(A).hash(), digest(&lower).hash());
    assert_eq!(digest(A).hash(), A.parse::<TlshDefault>().unwrap().hash().to_vec());
}

#[test]
fn tlsh_distance_is_the_difference_with_lengths() {
    let a: TlshDefault = A.parse().unwrap();
    let b: TlshDefault = B.parse().unwrap();
    let expected = a.diff(&b, true) as u32;
    assert!(expected > 0);
    assert_eq!(TlshDistance.calculate_distance(&digest(A), &digest(B)), expected);
    assert_eq!(TlshDistance.calculate_distance(&digest(A), &digest(A)), 0);
}

#[test]
fn ssdeep_scores_become_distances() {
    assert_eq!(SsdeepDistance.from_score(Some(100)), 0);
    assert_eq!(SsdeepDistance.from_score(Some(37)), 63);
    assert_eq!(SsdeepDistance.from_score(Some(0)), 100);
    assert_eq!(SsdeepDistance.from_score(None), 100);
}

#[test]
fn ssdeep_text_with_a_nul_is_never_valid() {
    let good = SsdeepHash("3:abc:def".to_string());
    let bad = SsdeepHash("3:a\0c:def".to_string());
    assert!(good.comparable());
    assert!(good.is_valid(Some(100)));
    assert!(!good.is_valid(None));
    assert!(!bad.comparable());
    assert!(!bad.is_valid(Some(100)));
}

#[test]
fn keys_of_identifiers() {
    assert_eq!(7u32.to_radix_key(), None);
    assert_eq!(digest(A).to_radix_key(), Some(A.as_bytes().to_vec()));
    assert_eq!(
        SsdeepHash("3:ab:é".to_string()).to_radix_key(),
        Some("3:ab:é".as_bytes().to_vec())
    );
    let r = SimpleTlshRecord::create(A.to_string());
    assert_eq!(r.search_id().0, A);
}

#[test]
fn medoid_of_few_is_the_first_with_the_least_sum() {
    assert_eq!(u32::medoid(&[1, 2, 3, 100]), 2);
    assert_eq!(u32::medoid(&[9]), 9);
    // sums: 10 -> 10, 0 -> 10; the first wins
    assert_eq!(u32::medoid(&[10, 0]), 10);
    assert_eq!(medoid_index::<NormalDistance, u32>(&[5, 1, 2, 3], &NormalDistance), 2);
}

#[test]
fn medoid_of_many_looks_at_a_sample() {
    // 1024 points: every fourth is sampled
    let features: Vec<u32> = (0..1024).collect();
    let at = medoid_index::<NormalDistance, u32>(&features, &NormalDistance);
    assert_eq!(at % 4, 0);
    assert_eq!(at, 508);
    assert!(features.contains(&u32::medoid(&features)));
}

#[test]
fn medoid_of_digests_is_one_of_them() {
    let all = vec![digest(A), digest(B), digest(A)];
    assert_eq!(TlshHash::medoid(&all).0, A);
}

#[test]
fn prune_factor_out_of_bits() {
    assert_eq!(PruneFactor::from_bits(1.2f32.to_bits()), Some(default_factor()));
    assert_eq!(
        PruneFactor::from_bits(1.0f32.to_bits()),
        Some(PruneFactor { significand: 0x80_0000, exponent: -23 })
    );
    assert_eq!(PruneFactor::from_bits(0.0f32.to_bits()), None);
    assert_eq!(PruneFactor::from_bits((-0.0f32).to_bits()), None);
    assert_eq!(PruneFactor::from_bits((-1.5f32).to_bits()), None);
    assert_eq!(PruneFactor::from_bits(f32::INFINITY.to_bits()), None);
    assert_eq!(PruneFactor::from_bits(f32::NAN.to_bits()), None);
    assert_eq!(
        PruneFactor::from_bits(1),
        Some(PruneFactor { significand: 1, exponent: -149 })
    );
    assert!(PruneFactor::from_bits(f32::MAX.to_bits()).is_some());
}

#[test]
fn occlusion_is_that_of_floats() {
    let factors = [
        1.2f32, 1.0, 0.5, 2.0, 0.1, 3.999_999_8, 1e-30, 1e30, f32::MAX, f32::MIN_POSITIVE,
        1.401e-45, 16_777_217.0, 0.333_333_34, 1.999_999_9,
    ];
    let numbers = [
        0u32, 1, 2, 3, 7, 10, 100, 255, 16_777_215, 16_777_216, 16_777_217, 16_777_219,
        33_554_433, 123_456_789, 2_147_483_647, 2_147_483_649, 4_294_967_167, 4_294_967_168,
        u32::MAX,
    ];
    for &f in &factors {
        let factor = PruneFactor::from_bits(f.to_bits()).unwrap();
        for &d in &numbers {
            for &s in &numbers {
                assert_eq!(
                    factor.occludes(d, s),
                    (d as f32) * f < s as f32,
                    "{f} {d} {s}"
                );
            }
        }
    }
    let mut x: u64 = 88_172_645_463_325_252;
    for _ in 0..20_000 {
        x ^= x << 13;
        x ^= x >> 7;
        x ^= x << 17;
        let d = x as u32;
        let s = (x >> 32) as u32;
        let near = ((d as f64) * 1.2) as u64 as u32;
        let factor = default_factor();
        assert_eq!(factor.occludes(d, s), (d as f32) * 1.2 < s as f32);
        assert_eq!(factor.occludes(d, near), (d as f32) * 1.2 < near as f32);
    }
}

#[test]
fn greater_factor_occludes_no_more() {
    let small = PruneFactor::from_bits(1.0f32.to_bits()).unwrap();
    let large = PruneFactor::from_bits(1.5f32.to_bits()).unwrap();
    for d in 0..60u32 {
        for s in 0..60u32 {
            assert!(!large.occludes(d, s) || small.occludes(d, s));
        }
    }
    assert!(small.occludes(10, 12));
    assert!(!large.occludes(10, 12));
}
