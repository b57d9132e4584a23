use openpbr::lobes::{LobeType, PerLobe, LOBE_COUNT};

#[test]
fn all_is_ordered_by_discriminant() {
    assert_eq!(LobeType::ALL.len(), LOBE_COUNT);
    for (i, lobe) in LobeType::ALL.iter().enumerate() {
        assert_eq!(lobe.to_index(), i);
    }
    assert_eq!(LobeType::ALL[0], LobeType::Fuzz);
    assert_eq!(LobeType::ALL[5], LobeType::Diffuse);
}

#[test]
fn discriminants_are_distinct() {
    for a in LobeType::ALL {
        for b in LobeType::ALL {
            assert_eq!(a.to_index() == b.to_index(), a == b);
        }
    }
}

#[test]
fn specular_lobes() {
    assert!(!LobeType::Fuzz.is_specular());
    assert!(LobeType::Coat.is_specular());
    assert!(LobeType::Metal.is_specular());
    assert!(LobeType::SpecularReflection.is_specular());
    assert!(LobeType::SpecularTransmission.is_specular());
    assert!(!LobeType::Diffuse.is_specular());
}

#[test]
fn new_maps_values_in_all_order() {
    let map = PerLobe::new([10, 11, 12, 13, 14, 15]);
    assert_eq!(map[LobeType::Fuzz], 10);
    assert_eq!(map[LobeType::Coat], 11);
    assert_eq!(map[LobeType::Metal], 12);
    assert_eq!(map[LobeType::SpecularReflection], 13);
    assert_eq!(map[LobeType::SpecularTransmission], 14);
    assert_eq!(map[LobeType::Diffuse], 15);
}

#[test]
fn from_fn_calls_function_per_lobe() {
    let map = PerLobe::from_fn(|lobe| lobe.to_index() * 3);
    for lobe in LobeType::ALL {
        assert_eq!(map[lobe], lobe.to_index() * 3);
    }
    let mut order = Vec::new();
    let _ = PerLobe::from_fn(|lobe| order.push(lobe));
    assert_eq!(order, LobeType::ALL.to_vec());
}

#[test]
fn values_follow_all_order() {
    let map = PerLobe::from_fn(|lobe| lobe.is_specular());
    assert_eq!(
        map.values().to_vec(),
        vec![false, true, true, true, true, false]
    );
    let total: usize = PerLobe::new([1, 2, 3, 4, 5, 6]).values().iter().sum();
    assert_eq!(total, 21);
}

#[test]
fn values_mut_changes_the_map() {
    let mut map = PerLobe::new([1.0f32, 2.0, 3.0, 4.0, 5.0, 6.0]);
    for value in map.values_mut().iter_mut() {
        *value /= 2.0;
    }
    assert_eq!(map[LobeType::Fuzz], 0.5);
    assert_eq!(map[LobeType::Diffuse], 3.0);
}

#[test]
fn write_then_read() {
    let mut map = PerLobe::new([0u32; LOBE_COUNT]);
    map[LobeType::Metal] = 7;
    assert_eq!(map[LobeType::Metal], 7);
    for lobe in LobeType::ALL {
        if lobe != LobeType::Metal {
            assert_eq!(map[lobe], 0);
        }
    }
    map[LobeType::Metal] += 1;
    assert_eq!(map[LobeType::Metal], 8);
}
