use point_registry::invalid::InvaPrimVal;
use point_registry::invalid::InvaVal;
use point_registry::primitive::PrimString;
use point_registry::primitive::PrimVal;
use point_registry::registry::Registry;
use point_registry::table::fits_table;
use point_registry::table::RegistryError;
use point_registry::table::TypeRegistry;
use point_registry::table::CHUNK;
use point_registry::table::MAX_CELLS;

fn valid(n: u32) -> InvaPrimVal {
    InvaVal::VALI(PrimVal::U32(n))
}

fn plus_one(cell: InvaPrimVal) -> InvaPrimVal {
    match cell {
        InvaVal::VALI(PrimVal::U32(n)) => InvaVal::VALI(PrimVal::U32(n + 1)),
        other => other,
    }
}

#[test]
fn a_new_table_has_no_cells() {
    let t = TypeRegistry::new(Registry::I64);
    assert_eq!(t.len(), 0);
    assert_eq!(t.allocation_count(), 0);
    assert_eq!(t.registry(), Registry::I64);
    assert_eq!(t.capacity_limit(), MAX_CELLS);
    assert_eq!(t.read(0), Err(RegistryError::UnknownIdentifier));
}

#[test]
fn fresh_table_hands_out_identifiers_from_zero() {
    let mut t = TypeRegistry::new(Registry::U32);
    let mut seen = Vec::new();
    for expected in 0..200u32 {
        let id = t.allocate(None).unwrap();
        assert_eq!(id, expected);
        assert!(!seen.contains(&id));
        seen.push(id);
    }
    assert_eq!(seen.len(), 200);
    assert_eq!(t.allocation_count(), 200);
}

#[test]
fn the_table_grows_by_whole_chunks() {
    let mut t = TypeRegistry::new(Registry::U32);
    assert_eq!(CHUNK, 64);
    assert_eq!(t.allocate(None), Ok(0));
    assert_eq!(t.len(), 64);
    for _ in 1..64 {
        t.allocate(None).unwrap();
    }
    assert_eq!(t.len(), 64);
    assert_eq!(t.allocate(None), Ok(64));
    assert_eq!(t.len(), 128);
    assert_eq!(t.allocate(Some(130)), Ok(130));
    assert_eq!(t.len(), 192);
    assert_eq!(t.allocate(Some(1000)), Ok(1000));
    assert_eq!(t.len(), 1024);
    assert_eq!(t.allocate(Some(1023)), Ok(1023));
    assert_eq!(t.len(), 1024);
    assert_eq!(t.allocate(Some(1024)), Ok(1024));
    assert_eq!(t.len(), 1088);
}

#[test]
fn a_new_cell_is_not_ready_and_the_cells_around_it_do_not_exist() {
    let mut t = TypeRegistry::new(Registry::U32);
    assert_eq!(t.allocate(Some(5)), Ok(5));
    assert_eq!(t.read(5), Ok(InvaVal::NORE));
    assert_eq!(t.read(4), Err(RegistryError::UnknownIdentifier));
    assert_eq!(t.read(6), Err(RegistryError::UnknownIdentifier));
    assert_eq!(t.read(63), Err(RegistryError::UnknownIdentifier));
    assert_eq!(t.read(64), Err(RegistryError::UnknownIdentifier));
    assert_eq!(t.allocation_count(), 1);
}

#[test]
fn an_identifier_is_allocated_once() {
    let mut t = TypeRegistry::new(Registry::U32);
    assert_eq!(t.allocate(Some(7)), Ok(7));
    assert_eq!(t.allocate(Some(7)), Err(RegistryError::IdentifierInUse));
    assert_eq!(t.allocate(None), Ok(0));
    assert_eq!(t.allocate(Some(0)), Err(RegistryError::IdentifierInUse));
    assert_eq!(t.allocation_count(), 2);
    assert_eq!(t.len(), 64);
}

#[test]
fn automatic_allocation_takes_the_least_free_identifier() {
    let mut t = TypeRegistry::new(Registry::U32);
    assert_eq!(t.allocate(Some(1)), Ok(1));
    assert_eq!(t.allocate(Some(2)), Ok(2));
    assert_eq!(t.allocate(Some(4)), Ok(4));
    assert_eq!(t.allocate(None), Ok(0));
    assert_eq!(t.allocate(None), Ok(3));
    assert_eq!(t.allocate(None), Ok(5));
    assert_eq!(t.allocate(None), Ok(6));
    assert_eq!(t.allocate(Some(3)), Err(RegistryError::IdentifierInUse));
}

#[test]
fn write_then_read_returns_the_value() {
    let mut t = TypeRegistry::new(Registry::U32);
    assert_eq!(t.allocate(Some(5)), Ok(5));
    assert_eq!(t.write(5, valid(42)), Ok(()));
    assert_eq!(t.read(5), Ok(valid(42)));
    assert_eq!(t.write(5, InvaVal::HAWB(PrimVal::U32(0))), Ok(()));
    assert_eq!(t.read(5), Ok(InvaVal::HAWB(PrimVal::U32(0))));
    assert_eq!(t.write(5, InvaVal::NORE), Ok(()));
    assert_eq!(t.read(5), Ok(InvaVal::NORE));
    assert_eq!(t.allocation_count(), 1);
}

#[test]
fn a_value_of_another_kind_is_refused() {
    let mut t = TypeRegistry::new(Registry::U32);
    assert_eq!(t.allocate(None), Ok(0));
    assert_eq!(t.write(0, valid(1)), Ok(()));
    assert_eq!(t.write(0, InvaVal::VALI(PrimVal::I32(2))), Err(RegistryError::TypeMismatch));
    assert_eq!(t.write(0, InvaVal::SCOL(PrimVal::BLN(true))), Err(RegistryError::TypeMismatch));
    assert_eq!(
        t.write(0, InvaVal::VALI(PrimVal::STR(PrimString::new(1, 2)))),
        Err(RegistryError::TypeMismatch)
    );
    assert_eq!(t.read(0), Ok(valid(1)));
}

#[test]
fn the_state_of_what_does_not_exist_is_never_stored() {
    let mut t = TypeRegistry::new(Registry::U32);
    assert_eq!(t.allocate(None), Ok(0));
    assert_eq!(t.write(0, InvaVal::NOEX), Err(RegistryError::TypeMismatch));
    assert_eq!(t.read(0), Ok(InvaVal::NORE));
    assert_eq!(t.update(0, |_| InvaVal::NOEX), Err(RegistryError::TypeMismatch));
    assert_eq!(t.read(0), Ok(InvaVal::NORE));
    assert_eq!(t.allocation_count(), 1);
}

#[test]
fn a_string_handle_is_stored_in_the_table_of_strings() {
    let handle = InvaVal::VALI(PrimVal::STR(PrimString::new(12, 77)));
    let mut t = TypeRegistry::new(Registry::STR);
    assert_eq!(t.allocate(None), Ok(0));
    assert_eq!(t.write(0, handle), Ok(()));
    assert_eq!(t.read(0), Ok(handle));
    assert_eq!(
        t.update(0, |_| InvaVal::SCOL(PrimVal::STR(PrimString::new(0, 78)))),
        Ok(())
    );
    assert_eq!(t.read(0), Ok(InvaVal::SCOL(PrimVal::STR(PrimString::new(0, 78)))));
    assert_eq!(t.write(0, valid(1)), Err(RegistryError::TypeMismatch));
    assert_eq!(t.read(0), Ok(InvaVal::SCOL(PrimVal::STR(PrimString::new(0, 78)))));
    assert!(fits_table(Registry::STR, &handle));
    for tag in [
        Registry::BLN,
        Registry::U32,
        Registry::I32,
        Registry::F32,
        Registry::I64,
        Registry::U64,
        Registry::F64,
        Registry::ENU,
    ] {
        assert!(!fits_table(tag, &handle));
    }
}

#[test]
fn every_kind_of_value_has_a_table_that_takes_it() {
    let values = [
        PrimVal::BLN(true),
        PrimVal::I32(-1),
        PrimVal::U32(1),
        PrimVal::F32(1.5f32.to_bits()),
        PrimVal::I64(-2),
        PrimVal::U64(2),
        PrimVal::F64(2.5f64.to_bits()),
        PrimVal::STR(PrimString::new(3, 4)),
    ];
    for v in values {
        let mut t = TypeRegistry::new(Registry::for_prim(v.as_reg_prim()));
        assert_eq!(t.allocate(None), Ok(0));
        assert_eq!(t.write(0, InvaVal::VALI(v)), Ok(()));
        assert_eq!(t.read(0), Ok(InvaVal::VALI(v)));
    }
}

#[test]
fn an_enumeration_is_stored_as_its_ordinal() {
    let mut t = TypeRegistry::new(Registry::ENU);
    assert_eq!(t.allocate(None), Ok(0));
    assert_eq!(t.write(0, valid(3)), Ok(()));
    assert_eq!(t.write(0, InvaVal::VALI(PrimVal::I32(3))), Err(RegistryError::TypeMismatch));
    assert_eq!(t.read(0), Ok(valid(3)));
}

#[test]
fn fitting_goes_by_state_and_kind() {
    assert!(fits_table(Registry::F64, &InvaVal::VALI(PrimVal::F64(0))));
    assert!(fits_table(Registry::F64, &InvaVal::NORE));
    assert!(!fits_table(Registry::F64, &InvaVal::NOEX));
    assert!(!fits_table(Registry::F64, &InvaVal::VALI(PrimVal::F32(0))));
    assert!(fits_table(Registry::ENU, &InvaVal::SOOR(PrimVal::U32(9))));
    assert!(!fits_table(Registry::BLN, &InvaVal::SOOR(PrimVal::U32(9))));
}

#[test]
fn an_identifier_that_was_never_allocated_is_unknown() {
    let mut t = TypeRegistry::new(Registry::U32);
    assert_eq!(t.read(0), Err(RegistryError::UnknownIdentifier));
    assert_eq!(t.write(0, valid(1)), Err(RegistryError::UnknownIdentifier));
    assert_eq!(t.update(0, plus_one), Err(RegistryError::UnknownIdentifier));
    assert_eq!(t.allocate(Some(3)), Ok(3));
    for id in [0u32, 2, 4, 63, 64, 65, 1_000_000, u32::MAX] {
        assert_eq!(t.read(id), Err(RegistryError::UnknownIdentifier));
        assert_eq!(t.write(id, valid(1)), Err(RegistryError::UnknownIdentifier));
        assert_eq!(t.update(id, plus_one), Err(RegistryError::UnknownIdentifier));
    }
    assert_eq!(t.len(), 64);
    assert_eq!(t.allocation_count(), 1);
}

#[test]
fn an_unknown_identifier_is_reported_before_a_mismatch() {
    let mut t = TypeRegistry::new(Registry::U32);
    assert_eq!(
        t.write(9, InvaVal::VALI(PrimVal::BLN(true))),
        Err(RegistryError::UnknownIdentifier)
    );
}

#[test]
fn writes_to_two_identifiers_do_not_touch_each_other() {
    let mut t = TypeRegistry::new(Registry::U32);
    for _ in 0..10 {
        t.allocate(None).unwrap();
    }
    assert_eq!(t.write(5, valid(42)), Ok(()));
    assert_eq!(t.write(6, valid(7)), Ok(()));
    assert_eq!(t.read(5), Ok(valid(42)));
    assert_eq!(t.read(6), Ok(valid(7)));
    assert_eq!(t.read(4), Ok(InvaVal::NORE));
    assert_eq!(t.read(7), Ok(InvaVal::NORE));

    let mut u = TypeRegistry::new(Registry::U32);
    for _ in 0..10 {
        u.allocate(None).unwrap();
    }
    assert_eq!(u.write(6, valid(7)), Ok(()));
    assert_eq!(u.write(5, valid(42)), Ok(()));
    for id in 0..10 {
        assert_eq!(u.read(id), t.read(id));
    }
}

#[test]
fn no_update_is_lost() {
    let workers = 4u32;
    let mut t = TypeRegistry::new(Registry::U32);
    let id = t.allocate(None).unwrap();
    assert_eq!(t.write(id, valid(0)), Ok(()));
    for round in 0..100 {
        for w in 0..workers {
            assert_eq!(t.update(id, plus_one), Ok(()));
            assert_eq!(t.read(id), Ok(valid(round * workers + w + 1)));
        }
    }
    assert_eq!(t.read(id), Ok(valid(workers * 100)));
}

#[test]
fn an_update_is_stored_as_a_write_is() {
    let mut t = TypeRegistry::new(Registry::U32);
    assert_eq!(t.allocate(None), Ok(0));
    assert_eq!(t.write(0, valid(5)), Ok(()));
    assert_eq!(
        t.update(0, |_| InvaVal::VALI(PrimVal::U64(5))),
        Err(RegistryError::TypeMismatch)
    );
    assert_eq!(t.read(0), Ok(valid(5)));
    assert_eq!(t.update(0, |_| InvaVal::INVA(PrimVal::U32(6))), Ok(()));
    assert_eq!(t.read(0), Ok(InvaVal::INVA(PrimVal::U32(6))));
}

#[test]
fn growing_keeps_every_cell() {
    let mut t = TypeRegistry::new(Registry::U32);
    for _ in 0..50 {
        t.allocate(None).unwrap();
    }
    assert_eq!(t.read(10), Ok(InvaVal::NORE));
    assert_eq!(t.write(11, valid(11)), Ok(()));
    let mut last = t.len();
    for n in 0..200u32 {
        assert_eq!(t.allocate(None), Ok(50 + n));
        assert_eq!(t.read(10), Ok(InvaVal::NORE));
        assert_eq!(t.read(11), Ok(valid(11)));
        assert!(t.len() >= last);
        last = t.len();
    }
    assert_eq!(t.len(), 256);
    assert_eq!(t.allocation_count(), 250);
}

#[test]
fn a_table_does_not_grow_beyond_its_limit() {
    let mut t = TypeRegistry::with_limit(Registry::U32, 100);
    assert_eq!(t.capacity_limit(), 100);
    for expected in 0..64u32 {
        assert_eq!(t.allocate(None), Ok(expected));
    }
    assert_eq!(t.allocate(None), Err(RegistryError::CapacityExhausted));
    assert_eq!(t.allocate(Some(64)), Err(RegistryError::CapacityExhausted));
    assert_eq!(t.allocate(Some(63)), Err(RegistryError::IdentifierInUse));
    assert_eq!(t.len(), 64);
    assert_eq!(t.allocation_count(), 64);
    assert_eq!(t.read(63), Ok(InvaVal::NORE));
}

#[test]
fn a_limit_below_one_chunk_leaves_no_room() {
    let mut t = TypeRegistry::with_limit(Registry::U32, 63);
    assert_eq!(t.allocate(None), Err(RegistryError::CapacityExhausted));
    assert_eq!(t.allocate(Some(0)), Err(RegistryError::CapacityExhausted));
    assert_eq!(t.len(), 0);
    let mut u = TypeRegistry::with_limit(Registry::U32, 64);
    assert_eq!(u.allocate(Some(63)), Ok(63));
    assert_eq!(u.allocate(Some(64)), Err(RegistryError::CapacityExhausted));
}

#[test]
fn no_limit_is_above_the_greatest() {
    let t = TypeRegistry::with_limit(Registry::U32, usize::MAX);
    assert_eq!(t.capacity_limit(), MAX_CELLS);
    assert_eq!(MAX_CELLS % CHUNK, 0);
    let mut u = TypeRegistry::new(Registry::U32);
    assert_eq!(u.allocate(Some(u32::MAX)), Err(RegistryError::CapacityExhausted));
    assert_eq!(u.allocate(Some(MAX_CELLS as u32)), Err(RegistryError::CapacityExhausted));
    assert_eq!(u.len(), 0);
}
