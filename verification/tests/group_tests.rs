use racah::group::{d_odd_central_class, CenterSubgroup, GlobalForm, GroupError, GroupId, RootSystem};

#[test]
fn su_family_constructors() {
    let g = GroupId::su(3).unwrap();
    assert_eq!(g.root_system, RootSystem::A(2));
    assert_eq!(g.form, GlobalForm::SimplyConnected);
    assert!(matches!(
        GroupId::su(1),
        Err(GroupError::UnsupportedRank { family: "su", value: 1 })
    ));
    assert!(matches!(
        GroupId::su_quotient(4, 3),
        Err(GroupError::NotACenterSubgroup { n: 4, k: 3 })
    ));
    let p = GroupId::psu(4).unwrap();
    assert_eq!(p.form, GlobalForm::Quotient(CenterSubgroup::Zk(4)));
}

#[test]
fn nality_decides_su_quotients() {
    // SU(3)/Z3 admits the adjoint (1,1) (N-ality 3) but not the 3 (1,0).
    let g = GroupId::psu(3).unwrap();
    assert!(g.admits(&[1, 1]));
    assert!(!g.admits(&[1, 0]));
    // SU(n) itself admits every dominant label of the right length.
    let s = GroupId::su(3).unwrap();
    assert!(s.admits(&[1, 0]));
    assert!(!s.admits(&[1, 0, 0]));
    assert!(!s.admits(&[-1, 0]));
}

#[test]
fn orthogonal_and_symplectic_quotients() {
    // SO(5) = B2/Z2: the vector (1,0) yes, the spinor (0,1) no.
    let so5 = GroupId::so(5).unwrap();
    assert!(so5.admits(&[1, 0]));
    assert!(!so5.admits(&[0, 1]));
    // PSp(4) = C2/Z2: the 4 (1,0) no, the 5 (0,1) yes.
    let psp4 = GroupId::psp(4).unwrap();
    assert!(!psp4.admits(&[1, 0]));
    assert!(psp4.admits(&[0, 1]));
    // SO(8) = D4 vector form: the vector yes, the spinors no.
    let so8 = GroupId::so(8).unwrap();
    assert!(so8.admits(&[1, 0, 0, 0]));
    assert!(!so8.admits(&[0, 0, 0, 1]));
}

#[test]
fn half_spin_forms_keep_one_chirality() {
    let plus = GroupId::half_spin_plus(8).unwrap();
    let minus = GroupId::half_spin_minus(8).unwrap();
    assert!(plus.admits(&[0, 0, 0, 1]) != minus.admits(&[0, 0, 0, 1]));
    assert!(matches!(
        GroupId::half_spin_plus(10),
        Err(GroupError::UnsupportedRank { .. })
    ));
}

#[test]
fn rank_of_root_systems() {
    assert_eq!(RootSystem::A(3).rank(), 3);
    assert_eq!(RootSystem::D(5).rank(), 5);
}

#[test]
fn d_odd_central_class_of_vector_is_two() {
    // D5 vector (1,0,0,0,0) has class 2 in Z4.
    assert_eq!(d_odd_central_class(&[1, 0, 0, 0, 0]), 2);
    assert_eq!(d_odd_central_class(&[0, 0, 0, 0, 0]), 0);
}

#[test]
fn b0_with_z2_admits_nothing() {
    let g = GroupId {
        root_system: RootSystem::B(0),
        form: GlobalForm::Quotient(CenterSubgroup::Z2),
    };
    assert!(!g.admits(&[]));
    assert!(!g.admits(&[0]));
}
