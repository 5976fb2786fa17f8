use rumoca_lower::intrinsics::{
    external_table_intrinsic_kind, intrinsic_short_name, ExternalTableIntrinsicKind,
    ExternalTableRecordKind,
};

#[test]
fn intrinsic_short_name_is_the_last_segment_and_idempotent() {
    let name = "Modelica.Blocks.Tables.Internal.getTimeTableValueNoDer";
    let short = intrinsic_short_name(name);
    assert_eq!(short, "getTimeTableValueNoDer");
    assert_eq!(intrinsic_short_name(short), short);
    assert_eq!(intrinsic_short_name("inStream"), "inStream");
    assert_eq!(intrinsic_short_name("a[x.y].b"), "b");
}

#[test]
fn table_intrinsic_kind_ignores_package_path_and_output_projection() {
    let bare = external_table_intrinsic_kind("getTimeTableTmin");
    assert_eq!(
        bare,
        Some(ExternalTableIntrinsicKind::Bounds {
            table: ExternalTableRecordKind::CombiTimeTable,
            upper: false,
        })
    );
    assert_eq!(external_table_intrinsic_kind("Modelica.Blocks.Tables.Internal.getTimeTableTmin"), bare);
    assert_eq!(external_table_intrinsic_kind("Modelica.Blocks.Tables.Internal.getTimeTableTmin.y"), bare);
    let lookup = external_table_intrinsic_kind("getTable1DValueNoDer2");
    assert_eq!(
        lookup,
        Some(ExternalTableIntrinsicKind::Lookup { table: ExternalTableRecordKind::CombiTable1D })
    );
    assert_eq!(external_table_intrinsic_kind("P.getTable1DValueNoDer2.y"), lookup);
    assert_eq!(external_table_intrinsic_kind("P.notATable"), None);
    assert_eq!(external_table_intrinsic_kind("P.notATable.y"), None);
}
