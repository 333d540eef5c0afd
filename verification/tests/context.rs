use lib::context::CoreContext;
use lib::ir::{Scalar, Value};
use lib::memory::SpyreMemoryHierarchy;

fn ctx() -> CoreContext {
    CoreContext::new(0, (0, 0, 0), SpyreMemoryHierarchy::new(2))
}

#[test]
fn scopes_shadow_and_resolve_outward() {
    let mut c = ctx();
    c.set_value("%a", Value::Index(1));
    c.push_scope();
    c.set_value("%b", Value::Index(2));
    assert!(matches!(c.get_value("%a").unwrap(), Value::Index(1))); // outer visible
    assert!(matches!(c.get_value("%b").unwrap(), Value::Index(2)));
    c.pop_scope();
    assert!(c.get_value("%b").is_err()); // inner gone
    assert!(c.has_value("%a"));
}

#[test]
fn lx_tracking_and_watermark_rewind() {
    let mut c = ctx();
    c.track_lx("%t", 256).unwrap();
    assert_eq!(c.get_lx(None).used, 256);
    c.push_scope();
    c.set_value("%inner", Value::Scalar(Scalar::I64(0)));
    c.track_lx("%inner", 128).unwrap();
    assert_eq!(c.get_lx(None).used, 384);
    c.pop_scope(); // frees %inner
    assert_eq!(c.get_lx(None).used, 256);
}

#[test]
fn lx_overflow_is_an_error() {
    let mut c = ctx();
    let cap = c.get_lx(None).capacity;
    assert!(c.track_lx("%big", cap + 1).is_err());
}

#[test]
fn inner_binding_shadows_outer_and_names_ignore_sigil() {
    let mut c = ctx();
    c.set_value("%x", Value::Index(1));
    c.push_scope();
    c.set_value("x", Value::Index(2));
    assert!(matches!(c.get_value("%x").unwrap(), Value::Index(2)));
    c.pop_scope();
    assert!(matches!(c.get_value("x").unwrap(), Value::Index(1)));
    assert_eq!(c.get_value("%nope").unwrap_err(), "undefined SSA value: %nope");
}

#[test]
fn pop_scope_rewinds_bump_pointer_and_untrack_releases() {
    let mut c = ctx();
    c.mem.get_lx_mut(0).next_ptr = 64;
    c.push_scope();
    c.mem.get_lx_mut(0).next_ptr = 512;
    c.pop_scope();
    assert_eq!(c.get_lx(None).next_ptr, 64);
    c.track_lx("%t", 100).unwrap();
    c.untrack_lx("%t");
    assert_eq!(c.get_lx(None).used, 0);
    c.untrack_lx("%never"); // no-op
    assert_eq!(c.get_lx(None).used, 0);
}

#[test]
fn grid_ids_and_clear() {
    let mut c = CoreContext::new(1, (1, 2, 3), SpyreMemoryHierarchy::new(2));
    assert_eq!(c.get_grid_id(0), 1);
    assert_eq!(c.get_grid_id(1), 2);
    assert_eq!(c.get_grid_id(2), 3);
    assert_eq!(c.get_grid_id(7), 0);
    c.set_value("%a", Value::Index(1));
    c.track_lx("%a", 10).unwrap();
    assert_eq!(c.get_lx(Some(1)).used, 10);
    assert_eq!(c.get_lx(Some(0)).used, 0);
    c.clear_values();
    assert!(!c.has_value("%a"));
    assert_eq!(c.get_lx(None).used, 0);
}

#[test]
fn overflow_message_names_the_numbers() {
    let mut c = ctx();
    let err = c.track_lx("%big", 3 * 1048576).unwrap_err();
    assert_eq!(err, "LX capacity exceeded on core 0: 0 + 3145728 > 2097152");
}

#[test]
fn undefined_value_message_names_it() {
    let c = ctx();
    assert_eq!(c.get_value("%nope").unwrap_err(), "undefined SSA value: %nope");
}

#[test]
fn clear_values_empties_this_lx_and_keeps_hbm() {
    let mut c = ctx();
    c.mem.hbm.write_bytes(0x10000, &[1, 2, 3]);
    c.mem.get_lx_mut(0).write_bytes(0, &[4, 5]);
    c.mem.get_lx_mut(1).write_bytes(0, &[6]);
    c.track_lx("%t", 16).unwrap();
    c.clear_values();
    assert_eq!(c.get_lx(None).used, 0);
    assert_eq!(c.get_lx(None).read_bytes(0, 2), vec![0, 0]);
    assert_eq!(c.get_lx(Some(1)).read_bytes(0, 1), vec![6]);
    assert_eq!(c.mem.hbm.read_bytes(0x10000, 3), vec![1, 2, 3]);
}

#[test]
fn region_push_bind_pop_restores_bindings_and_watermark() {
    let mut c = ctx();
    c.set_value("%a", Value::Index(1));
    let mark = c.get_lx(None).next_ptr;
    c.push_scope();
    c.set_value("%a", Value::Index(2));
    c.set_value("%b", Value::Index(3));
    c.track_lx("%b", 64).unwrap();
    c.mem.get_lx_mut(0).next_ptr = mark + 128;
    c.pop_scope();
    assert!(matches!(c.get_value("%a").unwrap(), Value::Index(1)));
    assert!(c.get_value("%b").is_err());
    assert_eq!(c.get_lx(None).next_ptr, mark);
    assert_eq!(c.get_lx(None).used, 0);
}

#[test]
fn a_region_with_reserved_lx_leaves_the_context_as_found() {
    let mut c = ctx();
    c.set_value("%a", Value::Index(1));
    let used = c.get_lx(None).used;
    let mark = c.get_lx(None).next_ptr;
    c.push_scope();
    c.set_value("%t", Value::Index(9));
    c.track_lx("%t", 256).unwrap();
    assert_eq!(c.get_lx(None).used, used + 256);
    c.pop_scope();
    assert_eq!(c.get_lx(None).used, used);
    assert_eq!(c.get_lx(None).next_ptr, mark);
    assert!(c.get_value("%t").is_err());
    assert!(matches!(c.get_value("%a").unwrap(), Value::Index(1)));
}

#[test]
fn a_refused_reservation_names_core_used_size_and_capacity() {
    let mut c = CoreContext::new(1, (1, 0, 0), SpyreMemoryHierarchy::new(2));
    c.track_lx("%a", 100).unwrap();
    let cap = c.get_lx(None).capacity;
    assert_eq!(
        c.track_lx("%big", cap).unwrap_err(),
        format!("LX capacity exceeded on core 1: 100 + {cap} > {cap}")
    );
    assert_eq!(c.get_lx(None).used, 100);
}
