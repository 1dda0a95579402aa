use point_registry::host::Host;
use point_registry::invalid::InvaVal;
use point_registry::link::Link;
use point_registry::primitive::PrimString;
use point_registry::primitive::PrimVal;
use point_registry::registry::Registry;
use point_registry::resolver::resolve_in;
use point_registry::resolver::RegistrySet;
use point_registry::resolver::ResolveError;
use point_registry::table::RegistryError;
use point_registry::table::MAX_CELLS;

const TAGS: [Registry; 9] = [
    Registry::BLN,
    Registry::U32,
    Registry::I32,
    Registry::F32,
    Registry::I64,
    Registry::U64,
    Registry::F64,
    Registry::ENU,
    Registry::STR,
];

#[test]
fn a_new_set_has_one_empty_table_for_each_tag() {
    let set = RegistrySet::new();
    for tag in TAGS {
        assert_eq!(set.registry(tag).registry(), tag);
        assert_eq!(set.registry(tag).len(), 0);
        assert_eq!(set.registry(tag).allocation_count(), 0);
        assert_eq!(set.registry(tag).capacity_limit(), MAX_CELLS);
    }
}

#[test]
fn a_local_link_resolves_to_the_cell_as_it_stands() {
    let mut set = RegistrySet::new();
    let id = set.allocate(Registry::U32, None).unwrap();
    let link = Link::new(id, Registry::U32, Host::Local);
    assert_eq!(set.resolve(&link), Ok(InvaVal::NORE));
    set.write(Registry::U32, id, InvaVal::VALI(PrimVal::U32(42))).unwrap();
    assert_eq!(set.resolve(&link), Ok(InvaVal::VALI(PrimVal::U32(42))));
    set.write(Registry::U32, id, InvaVal::SCOL(PrimVal::U32(41))).unwrap();
    assert_eq!(set.resolve(&link), Ok(InvaVal::SCOL(PrimVal::U32(41))));
}

#[test]
fn a_link_to_what_was_never_allocated_does_not_resolve() {
    let mut set = RegistrySet::new();
    assert_eq!(
        set.resolve(&Link::new(0, Registry::U32, Host::Local)),
        Err(ResolveError::UnknownIdentifier)
    );
    set.allocate(Registry::U32, Some(3)).unwrap();
    assert_eq!(
        set.resolve(&Link::new(2, Registry::U32, Host::Local)),
        Err(ResolveError::UnknownIdentifier)
    );
    assert_eq!(
        set.resolve(&Link::new(3, Registry::I32, Host::Local)),
        Err(ResolveError::UnknownIdentifier)
    );
    assert_eq!(set.resolve(&Link::new(3, Registry::U32, Host::Local)), Ok(InvaVal::NORE));
}

#[test]
fn a_link_to_another_host_is_not_resolved_here() {
    let mut set = RegistrySet::new();
    set.allocate(Registry::F64, Some(1)).unwrap();
    assert_eq!(
        set.resolve(&Link::new(1, Registry::F64, Host::V4(10, 0, 0, 1))),
        Err(ResolveError::RemoteUnsupported)
    );
    assert_eq!(
        set.resolve(&Link::new(1, Registry::F64, Host::V6(0, 0, 0, 0, 0, 0, 0, 1))),
        Err(ResolveError::RemoteUnsupported)
    );
    assert_eq!(
        set.resolve(&Link::new(9, Registry::F64, Host::V4(127, 0, 0, 1))),
        Err(ResolveError::RemoteUnsupported)
    );
    assert_eq!(set.resolve(&Link::new(1, Registry::F64, Host::Local)), Ok(InvaVal::NORE));
}

#[test]
fn the_tables_of_a_set_are_independent() {
    let mut set = RegistrySet::new();
    for (n, tag) in TAGS.iter().enumerate() {
        for _ in 0..=n {
            set.allocate(*tag, None).unwrap();
        }
    }
    for (n, tag) in TAGS.iter().enumerate() {
        assert_eq!(set.registry(*tag).allocation_count(), n + 1);
        assert_eq!(set.registry(*tag).len(), 64);
    }
    set.write(Registry::BLN, 0, InvaVal::VALI(PrimVal::BLN(true))).unwrap();
    assert_eq!(
        set.resolve(&Link::new(0, Registry::BLN, Host::Local)),
        Ok(InvaVal::VALI(PrimVal::BLN(true)))
    );
    assert_eq!(set.resolve(&Link::new(0, Registry::U32, Host::Local)), Ok(InvaVal::NORE));
}

#[test]
fn the_set_reads_writes_and_updates_by_tag() {
    let mut set = RegistrySet::new();
    assert_eq!(set.allocate(Registry::U64, Some(2)), Ok(2));
    assert_eq!(set.allocate(Registry::U64, Some(2)), Err(RegistryError::IdentifierInUse));
    assert_eq!(set.read(Registry::U64, 2), Ok(InvaVal::NORE));
    assert_eq!(set.read(Registry::I64, 2), Err(RegistryError::UnknownIdentifier));
    assert_eq!(set.write(Registry::U64, 2, InvaVal::VALI(PrimVal::U64(10))), Ok(()));
    assert_eq!(
        set.write(Registry::U64, 2, InvaVal::VALI(PrimVal::I64(10))),
        Err(RegistryError::TypeMismatch)
    );
    assert_eq!(
        set.write(Registry::I64, 2, InvaVal::VALI(PrimVal::I64(10))),
        Err(RegistryError::UnknownIdentifier)
    );
    assert_eq!(
        set.update(Registry::U64, 2, |c| match c {
            InvaVal::VALI(PrimVal::U64(n)) => InvaVal::VALI(PrimVal::U64(n * 2)),
            other => other,
        }),
        Ok(())
    );
    assert_eq!(set.read(Registry::U64, 2), Ok(InvaVal::VALI(PrimVal::U64(20))));
    assert_eq!(
        set.update(Registry::U64, 3, |c| c),
        Err(RegistryError::UnknownIdentifier)
    );
    assert_eq!(
        resolve_in(set.registry(Registry::U64), &Link::new(2, Registry::U64, Host::Local)),
        Ok(InvaVal::VALI(PrimVal::U64(20)))
    );
}

#[test]
fn a_link_to_a_string_resolves_to_its_handle() {
    let mut set = RegistrySet::new();
    let handle = InvaVal::VALI(PrimVal::STR(PrimString::new(9, 3)));
    let id = set.allocate(Registry::STR, None).unwrap();
    assert_eq!(set.write(Registry::STR, id, handle), Ok(()));
    assert_eq!(set.resolve(&Link::new(id, Registry::STR, Host::Local)), Ok(handle));
    assert_eq!(
        set.resolve(&Link::from_text(b"STR|0000000000@local").unwrap()),
        Ok(handle)
    );
    assert_eq!(set.write(Registry::U32, id, handle), Err(RegistryError::UnknownIdentifier));
    assert_eq!(set.allocate(Registry::U32, Some(id)), Ok(id));
    assert_eq!(set.write(Registry::U32, id, handle), Err(RegistryError::TypeMismatch));
}

#[test]
fn a_link_parsed_from_text_resolves() {
    let mut set = RegistrySet::new();
    set.allocate(Registry::I64, Some(12)).unwrap();
    set.write(Registry::I64, 12, InvaVal::VALI(PrimVal::I64(-5))).unwrap();
    let link = Link::from_text(b"I64|0000000012@local").unwrap();
    assert_eq!(set.resolve(&link), Ok(InvaVal::VALI(PrimVal::I64(-5))));
    let far = Link::from_text(b"I64|0000000012@192.0.2.1").unwrap();
    assert_eq!(set.resolve(&far), Err(ResolveError::RemoteUnsupported));
}
