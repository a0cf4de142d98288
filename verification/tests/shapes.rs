use metalspone::names::NameMap;
use metalspone::shape::{ChipNames, OrderedShape, RecursionShape, RecursionShapeConfig};

fn names() -> ChipNames {
    ChipNames {
        mem_var: "MemoryVar".to_string(),
        select: "Select".to_string(),
        mem_const: "MemoryConst".to_string(),
        batch_fri: "BatchFRI".to_string(),
        base_alu: "BaseAlu".to_string(),
        ext_alu: "ExtAlu".to_string(),
        exp_reverse_bits_len: "ExpReverseBitsLen".to_string(),
        poseidon2_wide: "Poseidon2WideDeg3".to_string(),
        public_values: "PublicValues".to_string(),
    }
}

fn map(pairs: &[(&str, usize)]) -> NameMap {
    let mut m = NameMap::new();
    for (name, n) in pairs {
        m.insert(name.to_string(), *n);
    }
    m
}

fn get(m: &NameMap, name: &str) -> Option<usize> {
    m.get(&name.to_string())
}

fn heights(pairs: &[(&str, usize)]) -> Vec<(String, usize)> {
    pairs.iter().map(|(name, h)| (name.to_string(), *h)).collect()
}

fn sorted(shape: &OrderedShape) -> Vec<(String, usize)> {
    let mut v = shape.inner.clone();
    v.sort();
    v
}

#[test]
fn a_map_keeps_the_last_number_of_a_name() {
    let mut m = map(&[("a", 1), ("b", 2)]);
    m.insert("a".to_string(), 7);
    assert_eq!(get(&m, "a"), Some(7));
    assert_eq!(get(&m, "b"), Some(2));
    assert_eq!(get(&m, "c"), None);
    let mut entries = m.entries();
    entries.sort();
    assert_eq!(entries, heights(&[("a", 7), ("b", 2)]));
    let copy = m.duplicate();
    m.insert("c".to_string(), 3);
    assert_eq!(get(&copy, "c"), None);
    assert_eq!(get(&copy, "a"), Some(7));
}

#[test]
fn the_default_shapes_are_ten() {
    let config = RecursionShapeConfig::default_shapes(&names());
    assert_eq!(config.allowed_shapes.len(), 10);
    let first = config.first().unwrap();
    assert_eq!(get(first, "MemoryVar"), Some(14));
    assert_eq!(get(first, "Select"), Some(13));
    assert_eq!(get(first, "Poseidon2WideDeg3"), Some(12));
    let last = &config.allowed_shapes[9];
    assert_eq!(get(last, "MemoryVar"), Some(21));
    assert_eq!(get(last, "ExtAlu"), Some(20));
    for shape in &config.allowed_shapes {
        assert_eq!(get(shape, "PublicValues"), Some(4));
        assert_eq!(shape.entries().len(), 9);
    }
    let seventh = &config.allowed_shapes[6];
    assert_eq!(get(seventh, "MemoryVar"), Some(19));
    assert_eq!(get(seventh, "Select"), Some(20));
    assert_eq!(get(seventh, "ExpReverseBitsLen"), Some(18));
}

#[test]
fn the_first_shape_that_is_high_enough_is_chosen() {
    let config = RecursionShapeConfig::default_shapes(&names());
    let mut shape: Option<RecursionShape> = None;
    config.fix_shape(&heights(&[("MemoryVar", 1 << 14), ("Select", 100)]), &mut shape);
    assert_eq!(get(&shape.as_ref().unwrap().inner, "MemoryVar"), Some(14));
    config.fix_shape(&heights(&[("MemoryVar", (1 << 14) + 1)]), &mut shape);
    assert_eq!(get(&shape.as_ref().unwrap().inner, "MemoryVar"), Some(15));
    let h = heights(&[("MemoryVar", 5), ("Poseidon2WideDeg3", (1 << 17) + 1)]);
    assert_eq!(config.closest_shape(&h), Some(7));
    config.fix_shape(&h, &mut shape);
    let inner = shape.unwrap().clone_into_hash_map();
    assert_eq!(get(&inner, "Poseidon2WideDeg3"), Some(18));
}

#[test]
fn shapes_after_the_first_that_fits_are_not_looked_at() {
    let mut low = NameMap::new();
    low.insert("Select".to_string(), 3);
    let mut high = NameMap::new();
    high.insert("Select".to_string(), 5);
    let config = RecursionShapeConfig { allowed_shapes: vec![low, high, NameMap::new()] };
    assert_eq!(config.closest_shape(&heights(&[("Select", 8)])), Some(0));
    assert_eq!(config.closest_shape(&heights(&[("Select", 9)])), Some(1));
    assert_eq!(config.closest_shape(&heights(&[("Select", 32)])), Some(1));
}

#[test]
fn a_program_that_is_too_high_has_no_shape() {
    let config = RecursionShapeConfig::default_shapes(&names());
    assert_eq!(config.closest_shape(&heights(&[("BatchFRI", (1 << 21) + 1)])), None);
    assert_eq!(config.closest_shape(&heights(&[("BatchFRI", 1 << 21)])), Some(8));
}

#[test]
fn the_union_has_room_for_every_shape() {
    let config = RecursionShapeConfig::default_shapes(&names());
    let union = config.union_config_with_extra_room();
    assert_eq!(union.allowed_shapes.len(), 1);
    let shape = union.first().unwrap();
    assert_eq!(get(shape, "MemoryVar"), Some(23));
    assert_eq!(get(shape, "ExtAlu"), Some(22));
    assert_eq!(get(shape, "PublicValues"), Some(4));
    for allowed in &config.allowed_shapes {
        for (name, height) in allowed.entries() {
            assert!(get(shape, &name).unwrap() >= height);
        }
    }
    // A name that only one shape has is kept, and the public values are there in any case.
    let two = RecursionShapeConfig { allowed_shapes: vec![map(&[("a", 3)]), map(&[("a", 2), ("b", 5)])] };
    let union = two.union_config_with_extra_room();
    let mut entries = union.allowed_shapes[0].entries();
    entries.sort();
    assert_eq!(entries, heights(&[("PublicValues", 4), ("a", 5), ("b", 7)]));
}

#[test]
fn combinations_run_through_the_last_place_first() {
    let config = RecursionShapeConfig {
        allowed_shapes: vec![map(&[("a", 1), ("b", 2)]), map(&[("a", 3)])],
    };
    let all = config.get_all_shape_combinations(2);
    assert_eq!(all.len(), 4);
    let first = heights(&[("a", 1), ("b", 2)]);
    let second = heights(&[("a", 3)]);
    let expected = [
        [&first, &first],
        [&first, &second],
        [&second, &first],
        [&second, &second],
    ];
    for (combination, shapes) in all.iter().zip(expected) {
        assert_eq!(&sorted(&combination[0]), shapes[0]);
        assert_eq!(&sorted(&combination[1]), shapes[1]);
    }
    assert_eq!(config.get_all_shape_combinations(3).len(), 8);
    let none = config.get_all_shape_combinations(0);
    assert_eq!(none.len(), 1);
    assert_eq!(none[0].len(), 0);
}

#[test]
fn a_configuration_of_one_shape() {
    let config = RecursionShapeConfig::from_hash_map(&map(&[("a", 9)]));
    assert_eq!(get(config.first().unwrap(), "a"), Some(9));
    let empty = RecursionShapeConfig { allowed_shapes: vec![] };
    assert!(empty.first().is_none());
}
