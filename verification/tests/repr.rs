use fuchsia_support::repr::{
    canonical_order, reprs, AttrMeta, Config, EnumRepr, ErrorSite, KindRepr, MetaArg, NestedMeta, Repr,
    ReprError, ReprErrorKind, StructRepr,
};

fn word(w: &str) -> NestedMeta {
    NestedMeta::Word(w.to_string())
}

fn align(n: u64) -> NestedMeta {
    NestedMeta::List(vec![MetaArg::Int(n)])
}

fn repr_attr(nested: Vec<NestedMeta>) -> AttrMeta {
    AttrMeta::List { ident: "repr".to_string(), nested }
}

const STRUCT_ALLOWED: &[&[StructRepr]] = &[
    &[StructRepr::C],
    &[StructRepr::Transparent],
    &[StructRepr::Packed],
    &[StructRepr::C, StructRepr::Packed],
];

const ENUM_ALLOWED: &[&[EnumRepr]] = &[&[EnumRepr::U8], &[EnumRepr::I8]];
const ENUM_DISALLOWED: &[&[EnumRepr]] = &[
    &[EnumRepr::U16],
    &[EnumRepr::C],
    &[EnumRepr::C, EnumRepr::U8],
];

fn struct_config(unaligned: bool) -> Config<StructRepr> {
    Config {
        allowed_combinations_message: "only repr(C), repr(transparent), repr(packed)",
        derive_unaligned: unaligned,
        allowed_combinations: STRUCT_ALLOWED,
        disallowed_but_legal_combinations: &[],
    }
}

fn enum_config() -> Config<EnumRepr> {
    Config {
        allowed_combinations_message: "must have repr(u8) or repr(i8)",
        derive_unaligned: true,
        allowed_combinations: ENUM_ALLOWED,
        disallowed_but_legal_combinations: ENUM_DISALLOWED,
    }
}

fn input_error(kind: ReprErrorKind) -> Vec<ReprError> {
    vec![ReprError { kind, site: ErrorSite::Input }]
}

#[test]
fn words_name_representations() {
    let cases = [
        ("u8", Repr::U8),
        ("u16", Repr::U16),
        ("u32", Repr::U32),
        ("u64", Repr::U64),
        ("usize", Repr::Usize),
        ("i8", Repr::I8),
        ("i16", Repr::I16),
        ("i32", Repr::I32),
        ("i64", Repr::I64),
        ("isize", Repr::Isize),
        ("C", Repr::C),
        ("transparent", Repr::Transparent),
        ("packed", Repr::Packed),
    ];
    for (w, r) in cases.iter() {
        assert_eq!(Repr::from_nested_meta(&word(w)), Ok(*r));
    }
}

#[test]
fn unknown_hints_are_unrecognized() {
    let unrecognized = Err(ReprErrorKind::UnrecognizedHint);
    assert_eq!(Repr::from_nested_meta(&word("c")), unrecognized);
    assert_eq!(Repr::from_nested_meta(&word("u128")), unrecognized);
    assert_eq!(Repr::from_nested_meta(&NestedMeta::Other), unrecognized);
    assert_eq!(Repr::from_nested_meta(&NestedMeta::List(vec![])), unrecognized);
    assert_eq!(
        Repr::from_nested_meta(&NestedMeta::List(vec![MetaArg::Int(2), MetaArg::Int(4)])),
        unrecognized
    );
    assert_eq!(Repr::from_nested_meta(&NestedMeta::List(vec![MetaArg::Other])), unrecognized);
    assert_eq!(Repr::from_nested_meta(&align(8)), Ok(Repr::Align(8)));
}

#[test]
fn kinds_refuse_unsupported_hints() {
    assert_eq!(StructRepr::parse(&word("u8")), Err(ReprErrorKind::UnsupportedHint));
    assert_eq!(EnumRepr::parse(&word("packed")), Err(ReprErrorKind::UnsupportedHint));
    assert_eq!(EnumRepr::parse(&word("transparent")), Err(ReprErrorKind::UnsupportedHint));
    assert_eq!(StructRepr::parse(&word("bogus")), Err(ReprErrorKind::UnrecognizedHint));
    assert_eq!(StructRepr::parse(&word("packed")), Ok(StructRepr::Packed));
    assert_eq!(EnumRepr::parse(&align(2)), Ok(EnumRepr::Align(2)));
    assert_eq!(StructRepr::kind_label(), "a struct");
    assert_eq!(EnumRepr::kind_label(), "an enum");
}

#[test]
fn reprs_collect_hints_and_errors() {
    let attrs = vec![
        AttrMeta::Other,
        AttrMeta::List { ident: "derive".to_string(), nested: vec![word("u8")] },
        repr_attr(vec![word("C"), word("u8")]),
        repr_attr(vec![word("bogus"), align(4)]),
    ];
    assert_eq!(
        reprs::<StructRepr>(&attrs),
        Err(vec![
            ReprError {
                kind: ReprErrorKind::UnsupportedHint,
                site: ErrorSite::Hint { attr: 2, nested: 1 }
            },
            ReprError {
                kind: ReprErrorKind::UnrecognizedHint,
                site: ErrorSite::Hint { attr: 3, nested: 0 }
            },
        ])
    );
    let attrs = vec![repr_attr(vec![word("packed"), align(4)]), repr_attr(vec![word("C")])];
    assert_eq!(
        reprs::<StructRepr>(&attrs),
        Ok(vec![StructRepr::Packed, StructRepr::Align(4), StructRepr::C])
    );
    assert_eq!(reprs::<EnumRepr>(&[]), Ok(vec![]));
}

#[test]
fn validate_accepts_allowed_combinations_in_canonical_order() {
    let config = struct_config(false);
    // `packed` then `C`, with an alignment, is the allowed `C, packed`
    let attrs = vec![repr_attr(vec![word("packed"), align(8)]), repr_attr(vec![word("C")])];
    assert_eq!(config.validate_reprs(&attrs), Ok(vec![StructRepr::C, StructRepr::Packed]));
    // the order of the hints does not matter
    let attrs = vec![repr_attr(vec![word("C"), word("packed")])];
    assert_eq!(config.validate_reprs(&attrs), Ok(vec![StructRepr::C, StructRepr::Packed]));
    let attrs = vec![repr_attr(vec![word("transparent")])];
    assert_eq!(config.validate_reprs(&attrs), Ok(vec![StructRepr::Transparent]));
}

#[test]
fn validate_reports_each_refusal() {
    let config = struct_config(false);
    // only an alignment: no representation that fixes the layout
    let attrs = vec![repr_attr(vec![align(4)])];
    assert_eq!(
        config.validate_reprs(&attrs),
        Err(vec![ReprError { kind: ReprErrorKind::MissingNonAlignRepr, site: ErrorSite::CallSite }])
    );
    assert_eq!(
        config.validate_reprs(&[]),
        Err(vec![ReprError { kind: ReprErrorKind::MissingNonAlignRepr, site: ErrorSite::CallSite }])
    );
    // transparent with packed is in neither table
    let attrs = vec![repr_attr(vec![word("transparent"), word("packed")])];
    assert_eq!(config.validate_reprs(&attrs), Err(input_error(ReprErrorKind::ConflictingHints)));
    // parse errors come first
    let attrs = vec![repr_attr(vec![word("u8")])];
    assert_eq!(
        config.validate_reprs(&attrs),
        Err(vec![ReprError {
            kind: ReprErrorKind::UnsupportedHint,
            site: ErrorSite::Hint { attr: 0, nested: 0 }
        }])
    );
}

#[test]
fn validate_for_unaligned() {
    let config = struct_config(true);
    let attrs = vec![repr_attr(vec![word("C"), align(2)])];
    assert_eq!(
        config.validate_reprs(&attrs),
        Err(input_error(ReprErrorKind::AlignAboveOneForUnaligned))
    );
    // align(1) is fine
    let attrs = vec![repr_attr(vec![word("C"), align(1)])];
    assert_eq!(config.validate_reprs(&attrs), Ok(vec![StructRepr::C]));
    // without Unaligned the alignment is only dropped
    let config = struct_config(false);
    let attrs = vec![repr_attr(vec![word("C"), align(2)])];
    assert_eq!(config.validate_reprs(&attrs), Ok(vec![StructRepr::C]));
}

#[test]
fn validate_enum_tables() {
    let config = enum_config();
    let attrs = vec![repr_attr(vec![word("u8")])];
    assert_eq!(config.validate_reprs(&attrs), Ok(vec![EnumRepr::U8]));
    let attrs = vec![repr_attr(vec![word("u16")])];
    assert_eq!(config.validate_reprs(&attrs), Err(input_error(ReprErrorKind::DisallowedCombination)));
    // `u8, C` is put in the order `C, u8`, which is disallowed
    let attrs = vec![repr_attr(vec![word("u8")]), repr_attr(vec![word("C")])];
    assert_eq!(config.validate_reprs(&attrs), Err(input_error(ReprErrorKind::DisallowedCombination)));
    let attrs = vec![repr_attr(vec![word("u8"), word("i8")])];
    assert_eq!(config.validate_reprs(&attrs), Err(input_error(ReprErrorKind::ConflictingHints)));
    let attrs = vec![repr_attr(vec![word("u8"), align(4)])];
    assert_eq!(
        config.validate_reprs(&attrs),
        Err(input_error(ReprErrorKind::AlignAboveOneForUnaligned))
    );
}

#[test]
fn representations_display_as_attributes() {
    assert_eq!(Repr::U8.to_string(), "repr(u8)");
    assert_eq!(Repr::Isize.to_string(), "repr(isize)");
    assert_eq!(Repr::C.to_string(), "repr(C)");
    assert_eq!(Repr::Transparent.to_string(), "repr(transparent)");
    assert_eq!(Repr::Packed.to_string(), "repr(packed)");
    assert_eq!(Repr::Align(0).to_string(), "repr(align(0))");
    assert_eq!(Repr::Align(16).to_string(), "repr(align(16))");
    assert_eq!(Repr::Align(u64::MAX).to_string(), "repr(align(18446744073709551615))");
    assert_eq!(StructRepr::Packed.to_string(), "repr(packed)");
    assert_eq!(StructRepr::Align(4096).to_string(), "repr(align(4096))");
    assert_eq!(EnumRepr::I64.to_string(), "repr(i64)");
    assert_eq!(EnumRepr::U8.to_repr(), Repr::U8);
}

#[test]
fn canonical_order_follows_names() {
    let all = vec![
        EnumRepr::Usize,
        EnumRepr::U8,
        EnumRepr::Align(2),
        EnumRepr::U64,
        EnumRepr::U32,
        EnumRepr::U16,
        EnumRepr::Isize,
        EnumRepr::I8,
        EnumRepr::I64,
        EnumRepr::I32,
        EnumRepr::I16,
        EnumRepr::C,
        EnumRepr::C,
    ];
    assert_eq!(
        canonical_order(&all),
        vec![
            EnumRepr::C,
            EnumRepr::C,
            EnumRepr::I16,
            EnumRepr::I32,
            EnumRepr::I64,
            EnumRepr::I8,
            EnumRepr::Isize,
            EnumRepr::U16,
            EnumRepr::U32,
            EnumRepr::U64,
            EnumRepr::U8,
            EnumRepr::Usize,
        ]
    );
    let mut reversed = all.clone();
    reversed.reverse();
    assert_eq!(canonical_order(&reversed), canonical_order(&all));
}

#[test]
fn canonical_order_is_debug_text_order() {
    let mut all = vec![
        EnumRepr::U8,
        EnumRepr::U16,
        EnumRepr::U32,
        EnumRepr::U64,
        EnumRepr::Usize,
        EnumRepr::I8,
        EnumRepr::I16,
        EnumRepr::I32,
        EnumRepr::I64,
        EnumRepr::Isize,
        EnumRepr::C,
    ];
    let canonical = canonical_order(&all);
    all.sort_by_key(|r| format!("{:?}", r));
    assert_eq!(canonical, all);
    let mut structs = vec![StructRepr::Transparent, StructRepr::Packed, StructRepr::C];
    let canonical = canonical_order(&structs);
    structs.sort_by_key(|r| format!("{:?}", r));
    assert_eq!(canonical, structs);
}

#[test]
fn error_messages() {
    let label = StructRepr::kind_label();
    let allowed = "must be repr(C)";
    assert_eq!(ReprErrorKind::UnrecognizedHint.message(label, allowed), "unrecognized representation hint");
    assert_eq!(
        ReprErrorKind::UnsupportedHint.message(label, allowed),
        "unsupported representation for deriving FromBytes, AsBytes, or Unaligned on a struct"
    );
    assert_eq!(
        ReprErrorKind::UnsupportedHint.message(EnumRepr::kind_label(), allowed),
        "unsupported representation for deriving FromBytes, AsBytes, or Unaligned on an enum"
    );
    assert_eq!(
        ReprErrorKind::AlignAboveOneForUnaligned.message(label, allowed),
        "cannot derive Unaligned with repr(align(N > 1))"
    );
    assert_eq!(
        ReprErrorKind::MissingNonAlignRepr.message(label, allowed),
        "must have a non-align #[repr(...)] attribute in order to guarantee this type's memory layout"
    );
    assert_eq!(ReprErrorKind::DisallowedCombination.message(label, allowed), "must be repr(C)");
    assert_eq!(ReprErrorKind::ConflictingHints.message(label, allowed), "conflicting representation hints");
}

#[test]
fn regrouping_hints_keeps_the_answer() {
    let config = struct_config(false);
    let one = vec![repr_attr(vec![word("packed"), align(2), word("C")])];
    let spread = vec![
        repr_attr(vec![word("C")]),
        AttrMeta::Other,
        repr_attr(vec![align(2)]),
        repr_attr(vec![word("packed")]),
    ];
    assert_eq!(config.validate_reprs(&one), config.validate_reprs(&spread));
    assert_eq!(config.validate_reprs(&one), Ok(vec![StructRepr::C, StructRepr::Packed]));
}
