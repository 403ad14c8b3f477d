use squishy_volumes_gpu::indirect::{DispatchSettings, Indirect};

#[test]
fn dispatch_of_few_elements_uses_one_row() {
    let indirect = Indirect::new(DispatchSettings {
        workgroup_size: 64,
        dispatch_limit: 65535,
        len: 1000,
    });
    assert_eq!(
        indirect,
        Indirect {
            x: 16,
            y: 1,
            z: 1,
            len: 1000
        }
    );
    assert_eq!(indirect.workgroup_count(), 16);
    assert_eq!(indirect.direct(), [16, 1, 1]);
}

#[test]
fn dispatch_of_nothing_launches_nothing() {
    let indirect = Indirect::new(DispatchSettings {
        workgroup_size: 64,
        dispatch_limit: 65535,
        len: 0,
    });
    assert_eq!(indirect.direct(), [0, 0, 0]);
    assert_eq!(indirect.workgroup_count(), 0);
}

#[test]
fn dispatch_spills_into_second_and_third_dimension() {
    let indirect = Indirect::new(DispatchSettings {
        workgroup_size: 1,
        dispatch_limit: 4,
        len: 9,
    });
    assert_eq!(indirect.direct(), [4, 3, 1]);
    assert!(indirect.workgroup_count() >= 9);

    let indirect = Indirect::new(DispatchSettings {
        workgroup_size: 2,
        dispatch_limit: 4,
        len: 70,
    });
    // 35 workgroups: rows of 4, 9 rows, planes of 16, 3 planes
    assert_eq!(indirect.direct(), [4, 4, 3]);
    assert_eq!(indirect.workgroup_count(), 48);
}

#[test]
fn dispatch_is_capped_by_the_limit() {
    let indirect = Indirect::new(DispatchSettings {
        workgroup_size: 1,
        dispatch_limit: 2,
        len: 100,
    });
    assert_eq!(indirect.direct(), [2, 2, 2]);
}
