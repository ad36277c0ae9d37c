use rubbl::casatables::{
    check_scalar_column, CasaDataType, CasaScalarData, ColumnDescription, GlueDataType, TableCreateMode,
    TableError, TableOpenMode, UnexpectedDataTypeError,
};
use rubbl::cli::{subcommand_exe_name, subcommand_from_filename};
use rubbl::io::align_padding;
use rubbl::notify::{default_prefix, notification_stream, ChatterLevel, NotificationKind, NotifyStream};
use rubbl::num::{shape_to_extents, DimensionMismatchError};
use rubbl::text::split_whitespace;
use rubbl::visdata::{AntPol, BasePol, FeedPol, VisPol};

#[test]
fn feed_pols() {
    assert_eq!(VisPol::XY.feedpol1(), FeedPol::X);
    assert_eq!(VisPol::XY.feedpol2(), FeedPol::Y);
    assert_eq!(VisPol::LR.feedpol1(), FeedPol::L);
    assert_eq!(VisPol::LR.feedpol2(), FeedPol::R);
    let b = BasePol::new(3, 5, VisPol::RL);
    assert_eq!(b.antpol1(), AntPol::new(3, FeedPol::R));
    assert_eq!(b.antpol2(), AntPol::new(5, FeedPol::L));
}

#[test]
fn whitespace_words() {
    assert_eq!(split_whitespace("  i   nschan\t"), vec!["i".to_string(), "nschan".to_string()]);
    assert_eq!(split_whitespace(""), Vec::<String>::new());
    assert_eq!(split_whitespace("a\u{3000}b"), vec!["a".to_string(), "b".to_string()]);
}

#[test]
fn subcommand_names() {
    assert_eq!(subcommand_from_filename("rubbl-foo", ""), Some("foo".to_string()));
    assert_eq!(subcommand_from_filename("rubbl-foo.exe", ".exe"), Some("foo".to_string()));
    assert_eq!(subcommand_from_filename("cargo-foo", ""), None);
    assert_eq!(subcommand_from_filename("rubbl-foo", ".exe"), None);
    assert_eq!(subcommand_from_filename("rubbl", ""), None);
}

#[test]
fn notification_routing() {
    assert_eq!(notification_stream(ChatterLevel::Minimal, NotificationKind::Note), None);
    assert_eq!(notification_stream(ChatterLevel::Normal, NotificationKind::Note), Some(NotifyStream::Stdout));
    assert_eq!(notification_stream(ChatterLevel::Minimal, NotificationKind::Fatal), Some(NotifyStream::Stderr));
    assert_eq!(default_prefix(NotificationKind::Warning), "warning:");
    assert_eq!(default_prefix(NotificationKind::Note), "note:");
    assert!(ChatterLevel::Minimal < ChatterLevel::Normal);
}

#[test]
fn extents_of_shapes() {
    assert_eq!(shape_to_extents(&[3, 4], 2), Ok(vec![3usize, 4]));
    assert_eq!(
        shape_to_extents(&[3, 4], 3),
        Err(DimensionMismatchError { expected: 3, actual: 2 })
    );
}

#[test]
fn alignment_padding() {
    assert_eq!(align_padding(0, 8), 0);
    assert_eq!(align_padding(13, 8), 3);
    assert_eq!(align_padding(16, 16), 0);
    assert_eq!(align_padding(17, 64), 47);
    for offset in [0u64, 1, 13, 63, 64, 1000] {
        for a in [1usize, 4, 8, 64] {
            let pad = align_padding(offset, a);
            assert_eq!((offset + pad as u64) % a as u64, 0);
            assert_eq!(align_padding(offset + pad as u64, a), 0);
        }
    }
}

#[test]
fn casa_types() {
    assert_eq!(GlueDataType::TpArrayInt.name(), "arr<i32>");
    assert_eq!(GlueDataType::TpDComplex.name(), "c64");
    assert_eq!(i32::data_type(), GlueDataType::TpInt);
    assert_eq!(i32::vector_type(), GlueDataType::TpArrayInt);
    assert_eq!(<Vec<String>>::data_type(), GlueDataType::TpArrayString);
    assert_eq!(TableOpenMode::ReadWrite.code(), 2);
    assert_eq!(TableCreateMode::NewNoReplace.code(), 2);
    let dims = [3u64, 4, 0, 0, 0, 0, 0, 0];
    let d = ColumnDescription::from_column_info("UVW", GlueDataType::TpArrayDouble, 0, 1, 2, &dims);
    assert_eq!(d.name(), "UVW");
    assert_eq!(d.data_type(), GlueDataType::TpArrayDouble);
    assert!(!d.is_scalar());
    assert!(d.is_fixed_shape());
    assert_eq!(d.shape(), Some(&[3u64, 4][..]));
    let v = ColumnDescription::from_column_info("DATA", GlueDataType::TpArrayFloat, 0, 0, 2, &dims);
    assert_eq!(v.shape(), None);
}

#[test]
fn scalar_column_checks() {
    assert!(check_scalar_column(GlueDataType::TpInt, 1, 1, 0, GlueDataType::TpInt).is_ok());
    match check_scalar_column(GlueDataType::TpArrayInt, 0, 1, 0, GlueDataType::TpInt) {
        Err(TableError::NotScalarColumnError(t)) => assert_eq!(t, GlueDataType::TpArrayInt),
        other => panic!("unexpected {:?}", other),
    }
    match check_scalar_column(GlueDataType::TpInt, 1, 1, 2, GlueDataType::TpInt) {
        Err(TableError::NotScalarColumnError(t)) => assert_eq!(t, GlueDataType::TpInt),
        other => panic!("unexpected {:?}", other),
    }
    match check_scalar_column(GlueDataType::TpDouble, 1, 1, 0, GlueDataType::TpInt) {
        Err(TableError::UnexpectedDataType(e)) => {
            assert_eq!(e, UnexpectedDataTypeError(GlueDataType::TpInt, GlueDataType::TpDouble))
        }
        other => panic!("unexpected {:?}", other),
    }
}

#[test]
fn subcommand_executable_names() {
    assert_eq!(subcommand_exe_name("foo", ""), "rubbl-foo");
    assert_eq!(subcommand_exe_name("foo", ".exe"), "rubbl-foo.exe");
    let name = subcommand_exe_name("fits-dump", ".exe");
    assert_eq!(subcommand_from_filename(&name, ".exe"), Some("fits-dump".to_string()));
}
