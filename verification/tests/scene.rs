use reconl::error::Code;
use reconl::scene::{
    Access, Barrier, GeometryClass, Pass, PassKind, PassList, ResourceUse, WorldRevision, BUMP_SHADOW_RELEVANT,
    BUMP_STATIC_GEOMETRY, RES_SHADOW_MAP, RES_TARGET_COLOR, RES_TEXTURE,
};

#[test]
fn barriers_appear_when_a_pass_writes_what_another_touched() {
    let mut list = PassList::new();
    list.push(Pass::new(PassKind::Shadow { cascade: 0 }).using(ResourceUse::write(RES_SHADOW_MAP, 0)));
    assert!(list.barriers().is_empty(), "first use of a resource needs no barrier");
    list.push(Pass::new(PassKind::Scene).using(ResourceUse::read(RES_SHADOW_MAP, 0)));
    // A write followed by a read from a different pass is a dependency.
    assert_eq!(list.barriers().len(), 1);
    assert_eq!(list.barriers()[0].kind, RES_SHADOW_MAP);
    assert_eq!(list.barriers()[0].after_pass, 0);
}

#[test]
fn reading_the_same_resource_twice_makes_no_barrier() {
    let mut list = PassList::new();
    list.push(Pass::new(PassKind::Scene).using(ResourceUse::read(RES_TEXTURE, 3)));
    list.push(Pass::new(PassKind::Scene).using(ResourceUse::read(RES_TEXTURE, 3)));
    assert!(list.barriers().is_empty());
}

#[test]
fn a_scene_pass_sampling_shadows_before_any_shadow_pass_is_rejected() {
    let mut list = PassList::new();
    list.push(Pass::new(PassKind::Scene).using(ResourceUse::read(RES_SHADOW_MAP, 0)));
    let err = list.validate().unwrap_err();
    assert_eq!(err.code, Code::NotReady);

    let mut ok = PassList::new();
    ok.push(Pass::new(PassKind::Shadow { cascade: 0 }).using(ResourceUse::write(RES_SHADOW_MAP, 0)));
    ok.push(Pass::new(PassKind::Scene).using(ResourceUse::read(RES_SHADOW_MAP, 0)));
    assert!(ok.validate().is_ok());
}

#[test]
fn bumping_a_world_revision_retires_caches_in_o_one_step() {
    let mut rev = WorldRevision::new();
    let shadow = rev.shadow_revision();
    let static_geo = rev.static_geometry_revision();

    // A UI quad changing is not shadow relevant.
    rev.bump(0);
    assert_ne!(rev.revision(), 1);
    assert_eq!(rev.shadow_revision(), shadow, "a plain bump must not retire cascades");
    assert_eq!(rev.static_geometry_revision(), static_geo);

    // A shadow-casting object moving is.
    rev.bump(BUMP_SHADOW_RELEVANT);
    assert_ne!(rev.shadow_revision(), shadow);

    // Static geometry changing retires the cached cascade differently.
    let after = rev.shadow_revision();
    rev.bump(BUMP_STATIC_GEOMETRY);
    assert_ne!(rev.static_geometry_revision(), static_geo);
    assert_eq!(rev.shadow_revision(), after, "a static edit is not a light change");
    assert_eq!(rev.bumps, 3);
}

#[test]
fn geometry_class_reads_the_flag() {
    assert_eq!(GeometryClass::from_flags(0), GeometryClass::Static);
    assert_eq!(GeometryClass::from_flags(1), GeometryClass::Dynamic);
    assert!(GeometryClass::Static.is_static());
}

#[test]
fn clear_resets_the_dependency_tracking() {
    let mut list = PassList::new();
    list.push(Pass::new(PassKind::Scene).using(ResourceUse::write(RES_TARGET_COLOR, 0)));
    list.clear();
    assert!(list.is_empty());
    list.push(Pass::new(PassKind::Scene).using(ResourceUse::write(RES_TARGET_COLOR, 0)));
    assert!(list.barriers().is_empty(), "the first write after a clear is not a dependency");
}

/// A pass that writes what an earlier one read waits for it.
#[test]
fn a_write_after_a_read_is_a_dependency() {
    let mut list = PassList::new();
    list.push(Pass::new(PassKind::Scene).using(ResourceUse::read(RES_TEXTURE, 3)));
    list.push(Pass::new(PassKind::Scene).using(ResourceUse::write(RES_TEXTURE, 3)));
    assert_eq!(list.barriers().len(), 1);
    assert_eq!(list.barriers()[0].kind, RES_TEXTURE);
    assert_eq!(list.len(), 2);
}

#[test]
fn passes_touch_through_a_shared_resource() {
    let a = Pass::new(PassKind::Scene).using(ResourceUse::write(RES_TARGET_COLOR, 1));
    let b = Pass::new(PassKind::Scene).using(ResourceUse::read(RES_TARGET_COLOR, 1));
    let c = Pass::new(PassKind::Scene).using(ResourceUse::read(RES_TARGET_COLOR, 2));
    assert!(a.touches(&b).is_some());
    assert!(a.touches(&c).is_none());
}

fn passes(list: &[&[ResourceUse]]) -> PassList {
    let mut out = PassList::new();
    for uses in list {
        out.push(uses.iter().fold(Pass::new(PassKind::Scene), |p, u| p.using(*u)));
    }
    out
}

const READ: ResourceUse = ResourceUse { kind: RES_TEXTURE, index: 0, access: Access::Read };
const WRITE: ResourceUse = ResourceUse { kind: RES_TEXTURE, index: 0, access: Access::Write };

fn barrier(after_pass: u32, to_write: bool) -> Barrier {
    Barrier { kind: RES_TEXTURE, index: 0, after_pass, to_write }
}

#[test]
fn a_pass_that_reads_its_own_write_does_not_hide_it() {
    let list = passes(&[&[WRITE, READ], &[READ]]);
    assert_eq!(list.barriers(), [barrier(0, false)]);
}

#[test]
fn a_barrier_names_the_last_writer() {
    let list = passes(&[&[WRITE], &[READ], &[WRITE]]);
    assert_eq!(list.barriers(), [barrier(0, false), barrier(0, true)]);
    let list = passes(&[&[WRITE], &[WRITE], &[READ]]);
    assert_eq!(list.barriers(), [barrier(0, true), barrier(1, false)]);
    // Nothing was written before: the resource started the frame undefined.
    assert_eq!(passes(&[&[READ], &[WRITE]]).barriers(), [barrier(u32::MAX, true)]);
}

#[test]
fn a_pass_waits_once_for_what_it_uses() {
    // The read is ordered after the write, and the write of the same pass with it.
    assert_eq!(passes(&[&[WRITE], &[READ, WRITE, READ]]).barriers(), [barrier(0, false)]);
    // A read behind a read needs nothing; the write behind them still does.
    let list = passes(&[&[WRITE], &[READ], &[READ, WRITE]]);
    assert_eq!(list.barriers(), [barrier(0, false), barrier(0, true)]);
    assert_eq!(passes(&[&[WRITE], &[READ], &[READ]]).barriers(), [barrier(0, false)]);
    assert!(passes(&[&[WRITE, READ, WRITE]]).barriers().is_empty());
}

#[test]
fn a_cleared_list_is_as_good_as_new() {
    let mut used = passes(&[&[WRITE], &[READ], &[WRITE]]);
    used.clear();
    let mut fresh = PassList::new();
    for list in [&mut used, &mut fresh] {
        list.push(Pass::new(PassKind::Scene).using(READ));
        list.push(Pass::new(PassKind::Scene).using(WRITE));
    }
    assert_eq!(used.barriers(), fresh.barriers());
    assert_eq!(used.len(), fresh.len());
}

#[test]
fn every_sampled_cascade_has_its_shadow_pass_first() {
    let shadow = |cascade| Pass::new(PassKind::Shadow { cascade }).using(ResourceUse::write(RES_SHADOW_MAP, cascade));
    let sampling = |cascades: &[u32]| {
        cascades.iter().fold(Pass::new(PassKind::Scene), |p, c| p.using(ResourceUse::read(RES_SHADOW_MAP, *c)))
    };
    let mut late = PassList::new();
    late.push(shadow(0));
    late.push(sampling(&[1]));
    late.push(shadow(1));
    let err = late.validate().unwrap_err();
    assert_eq!(err.code, Code::NotReady);
    assert_eq!(err.message, "scene pass 1 samples shadow maps but no shadow pass precedes it");

    let mut early = PassList::new();
    early.push(shadow(1));
    early.push(shadow(0));
    early.push(sampling(&[0, 1]));
    assert!(early.validate().is_ok());
    early.push(sampling(&[0, 2]));
    assert!(early.validate().is_err());
}

#[test]
fn a_pass_keeps_its_first_eight_uses() {
    let mut p = Pass::new(PassKind::Readback);
    assert_eq!(p.uses, [None; 8]);
    for i in 0..10 {
        p = p.using(ResourceUse::read(RES_TEXTURE, i));
        let kept = (i + 1).min(8);
        assert_eq!(p.use_count, kept);
        for slot in 0..8u32 {
            let want = if slot < kept { Some(ResourceUse::read(RES_TEXTURE, slot)) } else { None };
            assert_eq!(p.uses[slot as usize], want);
        }
    }
}

#[test]
fn a_pass_has_its_barriers_in_the_order_of_its_uses() {
    let mut list = PassList::new();
    list.push(
        Pass::new(PassKind::Scene)
            .using(ResourceUse::write(RES_TEXTURE, 1))
            .using(ResourceUse::read(RES_TEXTURE, 2))
            .using(ResourceUse::read(RES_TEXTURE, 3)),
    );
    assert!(list.barriers().is_empty());
    list.push(
        Pass::new(PassKind::Scene)
            .using(ResourceUse::write(RES_TEXTURE, 3))
            .using(ResourceUse::read(RES_TEXTURE, 2))
            .using(ResourceUse::read(RES_TEXTURE, 4))
            .using(ResourceUse::read(RES_TEXTURE, 1)),
    );
    let of = |index, after_pass, to_write| Barrier { kind: RES_TEXTURE, index, after_pass, to_write };
    assert_eq!(list.barriers(), [of(3, u32::MAX, true), of(1, 0, false)]);
    let both = ResourceUse { kind: RES_TEXTURE, index: 1, access: Access::ReadWrite };
    list.push(Pass::new(PassKind::Readback).using(ResourceUse::read(RES_TEXTURE, 3)).using(both));
    assert_eq!(list.barriers()[2..], [of(3, 1, false), of(1, 0, true)]);
}
