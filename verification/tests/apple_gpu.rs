use ennx::apple_gpu::{device_info, target_name, Target};

#[test]
fn maps_generations() {
    assert_eq!(target_name("Apple M1 Max"), Target::G13);
    assert_eq!(target_name("Apple M2"), Target::G14);
    assert_eq!(target_name("Apple M3 Pro"), Target::G15);
    assert_eq!(target_name("Apple M4"), Target::G16);
    assert_eq!(target_name("Future GPU"), Target::Unknown);
}

#[test]
fn white_space_is_ignored() {
    assert_eq!(target_name(" A p p l e\tM 3"), Target::G15);
    assert_eq!(target_name("AppleM"), Target::Unknown);
    assert_eq!(target_name(""), Target::Unknown);
    let info = device_info("Apple M2 Ultra");
    assert_eq!(info.name, "Apple M2 Ultra");
    assert_eq!(info.target, Target::G14);
}
