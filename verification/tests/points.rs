use ark_ec::affine::Affine;
use ark_ec::params::SWParams;
use ark_ec::projective::Projective;

/// `y^2 = x^3 + x + 1` over the field of 23 elements: 28 points, generator `(13, 16)` of
/// the subgroup of order 7, cofactor 4.
fn curve23() -> SWParams {
    SWParams::new(23, 1, 1, 13, 16, vec![4], vec![2], vec![7]).unwrap()
}

/// `y^2 = x^3 + 7` over the field of 103 elements.
fn curve103() -> SWParams {
    SWParams::new(103, 0, 7, 1, 27, vec![1], vec![1], vec![111]).unwrap()
}

fn aff(x: u64, y: u64) -> Affine {
    Affine::new(x, y, false)
}

fn proj(x: u64, y: u64, z: u64) -> Projective {
    Projective::new(x, y, z)
}

fn unique(q: &Projective, c: &SWParams) -> Affine {
    q.to_unique(c)
}

#[test]
fn params_accept_a_prime_field() {
    let c = curve23();
    assert_eq!(c.modulus, 23);
    assert_eq!(c.nonresidue, 5);
    assert_eq!(c.coeff_a, 1);
    assert_eq!(c.coeff_b, 1);
    assert_eq!(c.cofactor, vec![4]);
    assert_eq!(curve103().nonresidue, 3);
}

#[test]
fn params_reject_bad_input() {
    assert!(SWParams::new(21, 1, 1, 0, 1, vec![1], vec![1], vec![1]).is_none());
    assert!(SWParams::new(2, 1, 1, 0, 1, vec![1], vec![1], vec![1]).is_none());
    assert!(SWParams::new(23, 23, 1, 0, 1, vec![1], vec![1], vec![1]).is_none());
    assert!(SWParams::new(23, 1, 30, 0, 1, vec![1], vec![1], vec![1]).is_none());
    assert!(SWParams::new(23, 1, 1, 23, 1, vec![1], vec![1], vec![1]).is_none());
    assert!(SWParams::new(23, 1, 1, 0, 24, vec![1], vec![1], vec![1]).is_none());
}

#[test]
fn new_zero_generator_and_default() {
    let c = curve23();
    let a = Affine::new(3, 10, false);
    assert_eq!((a.x, a.y, a.infinity), (3, 10, false));
    assert_eq!(Affine::zero(), Affine::new(0, 1, true));
    assert!(Affine::zero().is_zero());
    assert!(!a.is_zero());
    assert_eq!(Affine::generator(&c), aff(13, 16));
    assert_eq!(Projective::generator(&c), aff(13, 16));
    assert_eq!(Affine::default(), Affine::zero());
    let z = Projective::zero();
    assert_eq!((z.x, z.y, z.z), (1, 1, 0));
    assert!(z.is_zero());
    let d = Projective::default();
    assert_eq!((d.x, d.y, d.z), (1, 1, 0));
    let q = Projective::new(12, 11, 2);
    assert_eq!((q.x, q.y, q.z), (12, 11, 2));
}

#[test]
fn on_curve_check() {
    let c = curve23();
    assert!(aff(3, 10).is_on_curve(&c));
    assert!(aff(4, 0).is_on_curve(&c));
    assert!(!aff(3, 11).is_on_curve(&c));
    assert!(Affine::new(5, 5, true).is_on_curve(&c));
    assert!(aff(1, 27).is_on_curve(&curve103()));
}

#[test]
fn point_from_x_picks_the_root() {
    let c = curve23();
    assert_eq!(Affine::get_point_from_x(3, false, &c), Some(aff(3, 10)));
    assert_eq!(Affine::get_point_from_x(3, true, &c), Some(aff(3, 13)));
    assert_eq!(Affine::get_point_from_x(4, true, &c), Some(aff(4, 0)));
    assert_eq!(Affine::get_point_from_x(0, false, &c), Some(aff(0, 1)));
    assert_eq!(Affine::get_point_from_x(2, false, &c), None);
    assert_eq!(Affine::get_point_from_x(22, true, &c), None);
}

#[test]
fn point_from_x_lies_on_curve_and_recovers_points() {
    let c = curve23();
    for x in 0..23u64 {
        for greatest in [false, true] {
            if let Some(p) = Affine::get_point_from_x(x, greatest, &c) {
                assert!(p.is_on_curve(&c));
                let negy = (23 - p.y) % 23;
                assert_eq!(Affine::get_point_from_x(x, p.y > negy, &c), Some(p));
            }
        }
    }
}

#[test]
fn affine_negation() {
    let c = curve23();
    assert_eq!(aff(3, 10).neg(&c), aff(3, 13));
    assert_eq!(aff(4, 0).neg(&c), aff(4, 0));
    assert_eq!(Affine::zero().neg(&c), Affine::zero());
    assert_eq!(aff(3, 10).neg(&c).neg(&c), aff(3, 10));
}

#[test]
fn projective_negation() {
    let c = curve23();
    let n = proj(12, 11, 2).neg(&c);
    assert_eq!((n.x, n.y, n.z), (12, 12, 2));
    assert_eq!(unique(&n, &c), aff(3, 13));
    let z = Projective::new(4, 5, 0).neg(&c);
    assert_eq!((z.x, z.y, z.z), (4, 5, 0));
}

#[test]
fn affine_form_of_jacobian_points() {
    let c = curve23();
    assert_eq!(Affine::from_projective(&proj(12, 11, 2), &c), aff(3, 10));
    assert_eq!(Affine::from_projective(&proj(3, 10, 1), &c), aff(3, 10));
    assert_eq!(Affine::from_projective(&proj(7, 7, 0), &c), Affine::zero());
    assert_eq!(unique(&proj(5, 6, 7), &c), aff(17, 20));
}

#[test]
fn jacobian_form_of_affine_points() {
    let a = Projective::from_affine(&aff(3, 10));
    assert_eq!((a.x, a.y, a.z), (3, 10, 1));
    let z = Projective::from_affine(&Affine::new(4, 4, true));
    assert_eq!((z.x, z.y, z.z), (1, 1, 0));
}

#[test]
fn roundtrip_between_coordinates() {
    let c = curve23();
    for p in [aff(3, 10), aff(13, 16), aff(4, 0), Affine::zero()] {
        let q = Projective::from_affine(&p);
        assert_eq!(Affine::from_projective(&q, &c), p);
    }
    assert_eq!(Affine::from_projective(&Projective::from_affine(&Affine::new(9, 9, true)), &c), Affine::zero());
    let q = proj(12, 11, 2);
    assert!(q.eq(&Projective::from_affine(&unique(&q, &c)), &c));
}

#[test]
fn normalized_points() {
    assert!(proj(3, 10, 1).is_normalized());
    assert!(proj(3, 10, 0).is_normalized());
    assert!(!proj(12, 11, 2).is_normalized());
}

#[test]
fn doubling_gives_the_tangent_point() {
    let c = curve23();
    let mut q = proj(3, 10, 1);
    q.double_in_place(&c);
    assert_eq!((q.x, q.y, q.z), (17, 21, 20));
    assert_eq!(unique(&q, &c), aff(7, 12));
    let d = proj(12, 11, 2).double(&c);
    assert_eq!(unique(&d, &c), aff(7, 12));
    let mut z = Projective::zero();
    z.double_in_place(&c);
    assert!(z.is_zero());
    assert!(proj(4, 0, 1).double(&c).is_zero());
}

#[test]
fn doubling_with_zero_coefficient_a() {
    let c = curve103();
    let mut q = proj(1, 27, 1);
    q.double_in_place(&c);
    assert_eq!((q.x, q.y, q.z), (48, 58, 54));
    assert_eq!(unique(&q, &c), aff(53, 96));
    let d = proj(4, 10, 2).double(&c);
    assert_eq!((d.x, d.y, d.z), (31, 50, 40));
    assert_eq!(unique(&d, &c), aff(53, 96));
}

#[test]
fn jacobian_addition() {
    let c = curve23();
    let mut q = proj(3, 10, 1);
    q.add_assign(&proj(9, 7, 1), &c);
    assert_eq!((q.x, q.y, q.z), (10, 14, 12));
    assert_eq!(unique(&q, &c), aff(17, 20));
    let s = proj(9, 7, 1).add(&proj(3, 10, 1), &c);
    assert_eq!(unique(&s, &c), aff(17, 20));
    let z = Projective::zero().add(&proj(3, 10, 1), &c);
    assert_eq!((z.x, z.y, z.z), (3, 10, 1));
    let w = proj(3, 10, 1).add(&Projective::zero(), &c);
    assert_eq!((w.x, w.y, w.z), (3, 10, 1));
}

#[test]
fn adding_a_point_to_itself_doubles_it() {
    let c = curve23();
    let s = proj(3, 10, 1).add(&proj(12, 11, 2), &c);
    assert_eq!(unique(&s, &c), aff(7, 12));
    let t = proj(3, 10, 1).add(&proj(3, 10, 1), &c);
    let d = proj(3, 10, 1).double(&c);
    assert_eq!((t.x, t.y, t.z), (d.x, d.y, d.z));
}

#[test]
fn mixed_addition() {
    let c = curve23();
    let mut q = proj(3, 10, 1);
    q.add_unique_in_place(&aff(9, 7), &c);
    assert_eq!(unique(&q, &c), aff(17, 20));
    let mut z = Projective::zero();
    z.add_unique_in_place(&aff(9, 7), &c);
    assert_eq!((z.x, z.y, z.z), (9, 7, 1));
    let mut u = proj(12, 11, 2);
    u.add_unique_in_place(&Affine::zero(), &c);
    assert_eq!((u.x, u.y, u.z), (12, 11, 2));
    let e = proj(12, 11, 2).add_unique(&aff(3, 10), &c);
    assert_eq!(unique(&e, &c), aff(7, 12));
    let n = proj(12, 11, 2).add_unique(&aff(3, 13), &c);
    assert!(n.is_zero());
}

#[test]
fn subtraction_and_negatives() {
    let c = curve23();
    let s = proj(3, 10, 1).sub(&proj(12, 11, 2), &c);
    assert!(s.is_zero());
    let mut t = proj(17, 20, 1);
    t.sub_assign(&proj(9, 7, 1), &c);
    assert_eq!(unique(&t, &c), aff(3, 10));
    let n = proj(3, 10, 1).neg(&c);
    assert!(proj(3, 10, 1).add(&n, &c).is_zero());
}

#[test]
fn addition_commutes_on_examples() {
    let c = curve23();
    let pts = [proj(3, 10, 1), proj(12, 11, 2), proj(9, 7, 1), proj(5, 6, 7), Projective::zero()];
    for p in pts.iter() {
        for q in pts.iter() {
            let a = p.add(q, &c);
            let b = q.add(p, &c);
            assert!(a.eq(&b, &c));
        }
    }
}

#[test]
fn sums_stay_on_the_curve() {
    let c = curve23();
    let mut acc = Projective::zero();
    for x in 0..23u64 {
        if let Some(p) = Affine::get_point_from_x(x, false, &c) {
            acc.add_unique_in_place(&p, &c);
            assert!(unique(&acc, &c).is_on_curve(&c));
            acc.double_in_place(&c);
            assert!(unique(&acc, &c).is_on_curve(&c));
        }
    }
}

#[test]
fn projective_equality() {
    let c = curve23();
    assert!(proj(3, 10, 1).eq(&proj(12, 11, 2), &c));
    assert!(!proj(3, 10, 1).eq(&proj(3, 13, 1), &c));
    assert!(!proj(3, 10, 1).eq(&proj(9, 10, 1), &c));
    assert!(Projective::zero().eq(&proj(5, 5, 0), &c));
    assert!(!Projective::zero().eq(&proj(3, 10, 1), &c));
    assert!(!proj(3, 10, 1).eq(&Projective::zero(), &c));
    assert!(proj(12, 11, 2).eq_affine(&aff(3, 10), &c));
    assert!(!proj(12, 11, 2).eq_affine(&aff(3, 13), &c));
    assert!(aff(3, 10).eq_projective(&proj(12, 11, 2), &c));
    assert!(Affine::zero().eq_projective(&Projective::zero(), &c));
}

#[test]
fn affine_addition() {
    let c = curve23();
    assert_eq!(aff(3, 10).add(&aff(9, 7), &c), aff(17, 20));
    assert_eq!(aff(3, 10).add(&aff(3, 10), &c), aff(7, 12));
    assert_eq!(aff(3, 10).add(&aff(3, 13), &c), Affine::zero());
    assert_eq!(Affine::zero().add(&aff(3, 10), &c), aff(3, 10));
    let mut a = aff(3, 10);
    a.add_assign(&aff(4, 0), &c);
    assert_eq!(a, aff(1, 16));
}

#[test]
fn sums_of_points() {
    let c = curve23();
    let g = aff(13, 16);
    assert_eq!(Affine::sum(&[g, g, aff(0, 1)], &c), aff(19, 18));
    assert_eq!(Affine::sum(&[], &c), Affine::zero());
    assert_eq!(Affine::sum(&[aff(3, 10), aff(3, 13)], &c), Affine::zero());
    let qs = [proj(26 % 23, 10, 1), proj(12, 11, 2), Projective::zero()];
    assert_eq!(Affine::sum_projective(&qs, &c), aff(7, 12));
    let s = Projective::sum(&qs, &c);
    assert_eq!(unique(&s, &c), aff(7, 12));
    assert!(Projective::sum(&[], &c).is_zero());
}

#[test]
fn batch_conversion_converts_every_point() {
    let c = curve23();
    let v = [proj(12, 11, 2), proj(1, 1, 0), proj(3, 10, 1), proj(5, 6, 7)];
    let r = Projective::batch_to_unique(&v, &c);
    assert_eq!(r, vec![aff(3, 10), Affine::zero(), aff(3, 10), aff(17, 20)]);
    for (q, a) in v.iter().zip(r.iter()) {
        assert_eq!(unique(q, &c), *a);
    }
    assert_eq!(Projective::batch_to_unique(&[proj(3, 10, 1)], &c), vec![aff(3, 10)]);
    assert_eq!(Projective::batch_to_unique(&[], &c), Vec::<Affine>::new());
}

#[test]
fn multiplication_by_bits() {
    let c = curve23();
    let g = aff(13, 16);
    let q = g.mul_bits(&vec![true, false, false], &c);
    assert_eq!((q.x, q.y, q.z), (22, 22, 21));
    assert_eq!(unique(&q, &c), aff(17, 3));
    let r = g.mul_bits(&vec![false, false, true, false, false], &c);
    assert_eq!((r.x, r.y, r.z), (22, 22, 21));
    assert!(g.mul_bits(&vec![], &c).is_zero());
    assert!(g.mul_bits(&vec![false, false], &c).is_zero());
}

#[test]
fn multiplication_by_scalars() {
    let c = curve23();
    let g = aff(13, 16);
    assert_eq!(unique(&aff(3, 10).mul(&[3], &c), &c), aff(19, 5));
    assert_eq!(unique(&g.mul(&[6], &c), &c), aff(13, 7));
    assert!(g.mul(&[7], &c).is_zero());
    assert!(g.mul(&[0], &c).is_zero());
    assert_eq!(unique(&g.mul(&[3, 0], &c), &c), aff(17, 20));
    let p = proj(12, 11, 2).mul(&[2], &c);
    assert_eq!(unique(&p, &c), aff(7, 12));
    let mut m = proj(12, 11, 2);
    m.mul_assign(&[3], &c);
    assert_eq!(unique(&m, &c), aff(19, 5));
    assert!(Projective::zero().mul(&[5], &c).is_zero());
}

#[test]
fn cofactor_operations() {
    let c = curve23();
    let q = aff(0, 1).scale_by_cofactor(&c);
    assert_eq!((q.x, q.y, q.z), (12, 15, 10));
    assert_eq!(unique(&q, &c), aff(13, 16));
    assert_eq!(unique(&aff(0, 1).mul_by_cofactor_to_projective(&c), &c), aff(13, 16));
    assert_eq!(aff(13, 16).mul_by_cofactor_inv(&c), aff(5, 19));
    assert_eq!(aff(0, 1).mul_by_cofactor_inv(&c), aff(6, 19));
}

#[test]
fn subgroup_membership() {
    let c = curve23();
    assert!(aff(13, 16).is_in_correct_subgroup_assuming_on_curve(&c));
    assert!(aff(17, 3).is_in_correct_subgroup_assuming_on_curve(&c));
    assert!(!aff(0, 1).is_in_correct_subgroup_assuming_on_curve(&c));
    assert!(!aff(3, 10).is_in_correct_subgroup_assuming_on_curve(&c));
    assert!(Affine::zero().is_in_correct_subgroup_assuming_on_curve(&c));
}

#[test]
fn multiplying_affine_and_jacobian_forms_agree() {
    let c = curve23();
    for k in 0..30u64 {
        let a = aff(3, 10).mul(&[k], &c);
        let b = Projective::from_affine(&aff(3, 10)).mul(&[k], &c);
        assert!(a.eq(&b, &c));
        assert!(unique(&a, &c).is_on_curve(&c));
    }
}

#[test]
fn zeroize_and_field_elements() {
    let c = curve23();
    let mut a = Affine::new(3, 10, true);
    assert_eq!(a.to_field_elements(), vec![3, 10, 1]);
    a.zeroize();
    assert_eq!(a, Affine::new(0, 0, false));
    assert_eq!(a.to_field_elements(), vec![0, 0, 0]);
    let mut q = proj(12, 11, 2);
    assert_eq!(q.to_field_elements(&c), vec![3, 10, 0]);
    assert_eq!(Projective::zero().to_field_elements(&c), vec![0, 1, 1]);
    q.zeroize();
    assert_eq!((q.x, q.y, q.z), (0, 0, 0));
}

#[test]
fn sampling_candidates() {
    let c = curve23();
    assert_eq!(Affine::sample_from_x(0, false, &c), Some(aff(13, 16)));
    assert_eq!(Affine::sample_from_x(2, true, &c), None);
    let q = Projective::sample_from_x(0, false, &c).unwrap();
    assert_eq!((q.x, q.y, q.z), (12, 15, 10));
    assert!(Projective::sample_from_x(10, false, &c).is_none());
    for x in 0..23u64 {
        if let Some(p) = Affine::sample_from_x(x, true, &c) {
            assert!(p.is_on_curve(&c));
            assert!(p.is_in_correct_subgroup_assuming_on_curve(&c));
        }
    }
}

#[test]
fn affine_group_laws_on_all_points() {
    let c = curve23();
    let mut pts = vec![Affine::zero()];
    for x in 0..23u64 {
        for y in 0..23u64 {
            let p = aff(x, y);
            if p.is_on_curve(&c) {
                pts.push(p);
            }
        }
    }
    assert_eq!(pts.len(), 28);
    for p in pts.iter() {
        assert_eq!(p.add(&p.neg(&c), &c), Affine::zero());
        assert_eq!(p.add(&Affine::zero(), &c), *p);
        for q in pts.iter() {
            let s = p.add(q, &c);
            assert_eq!(s, q.add(p, &c));
            assert!(s.is_on_curve(&c));
        }
    }
}

#[test]
fn text_of_points() {
    let c = curve23();
    assert_eq!(aff(3, 10).to_text(), "Affine(x=Fp64(0000000000000003), y=Fp64(000000000000000A))");
    assert_eq!(Affine::zero().to_text(), "Affine(Infinity)");
    assert_eq!(Affine::new(5, 5, true).to_text(), "Affine(Infinity)");
    assert_eq!(
        Affine::new(0xFEDCBA9876543210, 0x1F, false).to_text(),
        "Affine(x=Fp64(FEDCBA9876543210), y=Fp64(000000000000001F))"
    );
    assert_eq!(proj(12, 11, 2).to_text(&c), "Affine(x=Fp64(0000000000000003), y=Fp64(000000000000000A))");
    assert_eq!(Projective::zero().to_text(&c), "Affine(Infinity)");
}
