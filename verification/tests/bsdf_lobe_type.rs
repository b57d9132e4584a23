use openpbr::bsdf_lobe_type::BsdfLobeType;

fn named() -> [BsdfLobeType; 6] {
    [
        BsdfLobeType::reflection(),
        BsdfLobeType::transmission(),
        BsdfLobeType::diffuse(),
        BsdfLobeType::glossy(),
        BsdfLobeType::specular(),
        BsdfLobeType::volume(),
    ]
}

#[test]
fn flag_bits() {
    assert_eq!(BsdfLobeType::none(), BsdfLobeType(0));
    assert_eq!(BsdfLobeType::reflection(), BsdfLobeType(1));
    assert_eq!(BsdfLobeType::transmission(), BsdfLobeType(2));
    assert_eq!(BsdfLobeType::diffuse(), BsdfLobeType(4));
    assert_eq!(BsdfLobeType::glossy(), BsdfLobeType(8));
    assert_eq!(BsdfLobeType::specular(), BsdfLobeType(16));
    assert_eq!(BsdfLobeType::volume(), BsdfLobeType(32));
    assert_eq!(BsdfLobeType::default(), BsdfLobeType::none());
}

#[test]
fn named_flags_are_distinct() {
    let flags = named();
    for (i, a) in flags.iter().enumerate() {
        for (j, b) in flags.iter().enumerate() {
            assert_eq!(a.contains(*b), i == j);
        }
    }
}

#[test]
fn contains_any_shared_flag() {
    let glossy_reflection = BsdfLobeType(1 | 8);
    assert!(glossy_reflection.contains(BsdfLobeType::reflection()));
    assert!(glossy_reflection.contains(BsdfLobeType::glossy()));
    assert!(!glossy_reflection.contains(BsdfLobeType::transmission()));
    // A query with several flags succeeds when any one of them is present.
    assert!(glossy_reflection.contains(BsdfLobeType(2 | 8)));
    assert!(!glossy_reflection.contains(BsdfLobeType(2 | 4)));
}

#[test]
fn contains_symmetric() {
    let a = BsdfLobeType(0b101100);
    let b = BsdfLobeType(0b000101);
    assert_eq!(a.contains(b), b.contains(a));
    let c = BsdfLobeType(0b010010);
    assert_eq!(a.contains(c), c.contains(a));
    assert!(!a.contains(c));
}

#[test]
fn none_contains_nothing() {
    for flag in named() {
        assert!(!BsdfLobeType::none().contains(flag));
        assert!(!flag.contains(BsdfLobeType::none()));
    }
    assert!(!BsdfLobeType::none().contains(BsdfLobeType::none()));
    assert!(BsdfLobeType(u32::MAX).contains(BsdfLobeType(u32::MAX)));
}
