use point_registry::primitive::Prim;
use point_registry::primitive::PrimString;
use point_registry::primitive::PrimVal;
use point_registry::registry::Registry;

#[test]
fn the_kind_is_the_variant() {
    assert_eq!(PrimVal::BLN(false).as_reg_prim(), Prim::BLN);
    assert_eq!(PrimVal::I32(0).as_reg_prim(), Prim::I32);
    assert_eq!(PrimVal::U32(0).as_reg_prim(), Prim::U32);
    assert_eq!(PrimVal::F32(0).as_reg_prim(), Prim::F32);
    assert_eq!(PrimVal::I64(0).as_reg_prim(), Prim::I64);
    assert_eq!(PrimVal::U64(0).as_reg_prim(), Prim::U64);
    assert_eq!(PrimVal::F64(0).as_reg_prim(), Prim::F64);
    assert_eq!(PrimVal::STR(PrimString::new(3, 9)).as_reg_prim(), Prim::STR);
}

#[test]
fn the_kind_does_not_depend_on_the_payload() {
    assert_eq!(PrimVal::U32(0).as_reg_prim(), PrimVal::U32(u32::MAX).as_reg_prim());
    assert_eq!(PrimVal::I64(-1).as_reg_prim(), PrimVal::I64(1).as_reg_prim());
}

#[test]
fn kinds_have_their_fixed_numbers() {
    let all = [
        (Prim::BLN, 1u8),
        (Prim::I32, 2),
        (Prim::U32, 3),
        (Prim::F32, 4),
        (Prim::I64, 5),
        (Prim::U64, 6),
        (Prim::F64, 7),
        (Prim::STR, 8),
    ];
    for (k, n) in all {
        assert_eq!(k.as_u8(), n);
        assert_eq!(Prim::from_u8(n), Some(k));
    }
    assert_eq!(Prim::from_u8(0), None);
    assert_eq!(Prim::from_u8(9), None);
}

#[test]
fn a_string_descriptor_keeps_length_and_pool_identifier() {
    let s = PrimString::new(12, 77);
    assert_eq!(s.length(), 12);
    assert_eq!(s.id(), 77);
    assert_eq!(s, PrimString::new(12, 77));
    assert_ne!(s, PrimString::new(12, 78));
}

#[test]
fn a_float_is_held_as_its_bits() {
    let v = PrimVal::F64(2.5f64.to_bits());
    match v {
        PrimVal::F64(bits) => assert_eq!(f64::from_bits(bits), 2.5),
        _ => panic!("another kind"),
    }
    let w = PrimVal::F32((-1.0f32).to_bits());
    match w {
        PrimVal::F32(bits) => assert_eq!(f32::from_bits(bits), -1.0),
        _ => panic!("another kind"),
    }
}

#[test]
fn each_tag_names_its_kind() {
    assert_eq!(Registry::BLN.as_prim(), Prim::BLN);
    assert_eq!(Registry::U32.as_prim(), Prim::U32);
    assert_eq!(Registry::I32.as_prim(), Prim::I32);
    assert_eq!(Registry::F32.as_prim(), Prim::F32);
    assert_eq!(Registry::I64.as_prim(), Prim::I64);
    assert_eq!(Registry::U64.as_prim(), Prim::U64);
    assert_eq!(Registry::F64.as_prim(), Prim::F64);
    assert_eq!(Registry::ENU.as_prim(), Prim::U32);
    assert_eq!(Registry::STR.as_prim(), Prim::STR);
}

#[test]
fn each_kind_has_the_table_of_its_tag() {
    let kinds = [
        (Prim::BLN, Registry::BLN),
        (Prim::I32, Registry::I32),
        (Prim::U32, Registry::U32),
        (Prim::F32, Registry::F32),
        (Prim::I64, Registry::I64),
        (Prim::U64, Registry::U64),
        (Prim::F64, Registry::F64),
        (Prim::STR, Registry::STR),
    ];
    for (kind, tag) in kinds {
        assert_eq!(Registry::for_prim(kind), tag);
        assert_eq!(Registry::for_prim(kind).as_prim(), kind);
    }
    let handle = PrimVal::STR(PrimString::new(5, 1));
    assert_eq!(Registry::for_prim(handle.as_reg_prim()), Registry::STR);
}

#[test]
fn tags_have_their_fixed_numbers_and_texts() {
    let all = [
        (Registry::BLN, 40u8, "BLN"),
        (Registry::U32, 41, "U32"),
        (Registry::I32, 42, "I32"),
        (Registry::F32, 43, "F32"),
        (Registry::I64, 44, "I64"),
        (Registry::U64, 45, "U64"),
        (Registry::F64, 46, "F64"),
        (Registry::ENU, 47, "ENU"),
        (Registry::STR, 48, "STR"),
    ];
    for (tag, n, text) in all {
        assert_eq!(tag.as_u8(), n);
        assert_eq!(Registry::from_u8(n), Some(tag));
        assert_eq!(&tag.tag()[..], text.as_bytes());
        assert_eq!(Registry::from_tag(text.as_bytes()), Some(tag));
    }
    assert_eq!(Registry::from_u8(39), None);
    assert_eq!(Registry::from_u8(49), None);
}

#[test]
fn other_texts_name_no_tag() {
    assert_eq!(Registry::from_tag(b"XYZ"), None);
    assert_eq!(Registry::from_tag(b"str"), None);
    assert_eq!(Registry::from_tag(b"BOO"), None);
    assert_eq!(Registry::from_tag(b"u32"), None);
    assert_eq!(Registry::from_tag(b"U3"), None);
    assert_eq!(Registry::from_tag(b"U322"), None);
    assert_eq!(Registry::from_tag(b""), None);
}
