use reconl::raster::single::less;
use reconl::shadow::{
    bias_base, cache_key, cascade_count, filter_radius, filter_scale, reads_as_lit, select_cascade,
    tap_index, CacheKeyInput, CascadeSet, Tier, FILTER_HARD, FILTER_PCF3X3, FILTER_PCF5X5,
    FILTER_PCSS_LITE,
};

fn base() -> CacheKeyInput {
    CacheKeyInput {
        light_hash: 0x1234,
        cascade_index: 0,
        view_proj: [0.5f32.to_bits(); 16],
        world_revision: 7,
        filter: FILTER_PCF3X3,
        map_size: 1024,
        reversed_z: true,
        static_geometry_revision: 3,
    }
}

#[test]
fn cache_key_covers_every_input_that_changes_the_map() {
    let key = cache_key(&base());
    assert_eq!(key, cache_key(&base()), "the key must be stable");

    let mut changed = base();
    changed.world_revision = 8;
    assert_ne!(key, cache_key(&changed), "a world revision must retire the entry");

    let mut changed = base();
    changed.static_geometry_revision = 4;
    assert_ne!(key, cache_key(&changed));

    let mut changed = base();
    changed.filter = FILTER_PCF5X5;
    assert_ne!(key, cache_key(&changed));

    let mut changed = base();
    changed.map_size = 2048;
    assert_ne!(key, cache_key(&changed));

    let mut changed = base();
    changed.light_hash = 0x1235;
    assert_ne!(key, cache_key(&changed));

    let mut changed = base();
    changed.cascade_index = 1;
    assert_ne!(key, cache_key(&changed));

    let mut changed = base();
    changed.view_proj[12] = (0.5f32 + 1.0e-3).to_bits(); // a moved fit is a different map
    assert_ne!(key, cache_key(&changed));

    let mut changed = base();
    changed.reversed_z = false;
    assert_ne!(key, cache_key(&changed));
}

#[test]
fn bias_presets_are_ordered_by_tier_and_map_size() {
    let t0 = bias_base(Tier::GpuDiscrete);
    let t4 = bias_base(Tier::OutOfCore);
    assert!(less(t0.depth, t4.depth), "weaker tiers need more bias");
    assert!(less(t0.normal, t4.normal));
    assert_eq!(f32::from_bits(bias_base(Tier::CpuRam).depth), 4.0e-4);
    assert_eq!(f32::from_bits(bias_base(Tier::CpuThrifty).slope), 2.5);
    assert!(less(filter_scale(FILTER_HARD), filter_scale(FILTER_PCSS_LITE)));
    assert_eq!(f32::from_bits(filter_scale(FILTER_PCF5X5)), 1.5);
}

#[test]
fn a_distance_falls_into_the_first_cascade_that_reaches_it() {
    let splits = [10.0f32, 20.0, 40.0].map(|v| v.to_bits());
    let at = |d: f32| select_cascade(&splits, d.to_bits());
    assert_eq!(at(0.0), Some(0));
    assert_eq!(at(10.0), Some(0));
    assert_eq!(at(10.5), Some(1));
    assert_eq!(at(99.0), Some(2));
    assert_eq!(at(f32::NAN), Some(2));
    assert_eq!(at(-1.0), Some(0));
    assert_eq!(select_cascade(&[], 0), None);
    assert_eq!(cascade_count(0), 1);
    assert_eq!(cascade_count(9), 4);
}

#[test]
fn a_camera_outside_the_cascade_reads_as_lit() {
    let splits = [60.0f32.to_bits()];
    let near = 5.0f32.to_bits();
    let max = 60.0f32.to_bits();
    // An empty map: the fail-safe must return fully lit rather than black.
    assert!(reads_as_lit(near, max, &splits, &[0], &[(0, 0, 0)]));
    assert!(reads_as_lit(near, max, &splits, &[1], &[(4, 4, 16)]));
    assert!(reads_as_lit(70.0f32.to_bits(), max, &splits, &[0], &[(4, 4, 16)]));
    assert!(reads_as_lit(near, max, &[], &[], &[(4, 4, 16)]));
    assert!(!reads_as_lit(near, max, &splits, &[0], &[(4, 4, 16)]));
}

#[test]
fn taps_stay_inside_their_map() {
    assert_eq!(tap_index(-3, 9, 4, 4, 16), Some(12));
    assert_eq!(tap_index(2, 1, 4, 4, 16), Some(6));
    assert_eq!(tap_index(2, 1, 4, 4, 6), None);
    assert_eq!(filter_radius(FILTER_HARD), 0);
    assert_eq!(filter_radius(FILTER_PCF3X3), 1);
    assert_eq!(filter_radius(FILTER_PCF5X5), 2);
}

#[test]
fn a_cascade_set_has_room_for_its_limit() {
    let mut set: CascadeSet<u32> = CascadeSet::empty();
    for i in 0..4 {
        assert!(set.push(i));
    }
    assert!(!set.push(4));
    assert_eq!(set.count(), 4);
    assert_eq!(set.get(2), Some(&2));
    assert_eq!(set.get(4), None);
}
