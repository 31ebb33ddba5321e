//! Tests of the mapping engine, the vendor registry and project
//! resolution helpers.

use covernc::elumatec::data::{
    ApiCut, ApiElement, ApiMachining, ApiOperation, ApiProfile, ApiStructureView, FlatArticle,
    FlatExport, FlatProfile, ProjectData,
};
use covernc::elumatec::variant::Variant;
use covernc::elumatec::{CutError, ElumatecExporter, MacroError};
use covernc::exporter::{ExportError, SourceData};
use covernc::util::ProjectInfo;
use covernc::Exporter;

fn profile_article(length: f32, lh: f32, lv: f32, rh: f32, rv: f32) -> FlatArticle {
    FlatArticle {
        kind: "profile".to_owned(),
        profile: Some(FlatProfile {
            length: length.to_bits(),
            angle_lh: lh.to_bits(),
            angle_lv: lv.to_bits(),
            angle_rh: rh.to_bits(),
            angle_rv: rv.to_bits(),
        }),
    }
}

fn cut(h: f32, v: f32, z: f32) -> ApiCut {
    ApiCut {
        h: h.to_bits(),
        v: v.to_bits(),
        z: z.to_bits(),
    }
}

fn plain_profile(length: f32, ext1: Vec<ApiCut>, ext2: Vec<ApiCut>) -> ApiProfile {
    ApiProfile {
        length: Some(length.to_bits()),
        ext1: Some(ext1),
        ext2: Some(ext2),
        element: None,
    }
}

#[test]
fn flat_export_end_to_end() {
    let export = FlatExport {
        articles: vec![profile_article(100.0, 1.0, 2.0, 3.0, 4.0)],
    };
    let mut ex = ElumatecExporter::default();
    ex.update_from_file(&export);
    let text = ex.to_string();
    let expected = ":OPTIONS\nOCreator\t=\t\"Elucad\"\nOScale\t=\t1\n\n:CUT\nCAngleLH\t=\t1\nCAngleLV\t=\t2\nCAngleRH\t=\t3\nCAngleRV\t=\t4\nCCount\t=\t1\nCLength\t=\t100\nCNo\t=\t1\nCRotation\t=\t0\nCSawRotation\t=\t0\n\n";
    assert_eq!(text, expected);
}

#[test]
fn flat_export_skips_other_articles() {
    let export = FlatExport {
        articles: vec![
            FlatArticle {
                kind: "frame".to_owned(),
                profile: None,
            },
            profile_article(10.0, 0.0, 0.0, 0.0, 0.0),
        ],
    };
    let mut ex = ElumatecExporter::default();
    ex.update_from_file(&export);
    // one OPTIONS record and exactly one CUT record
    assert_eq!(ex.tag_count(), 2);
    assert_eq!(ex.tag_at(1).get("CNo"), Some(Variant::Int(1)));
}

#[test]
fn api_cuts_number_cumulatively() {
    // two profiles with differing extremity-cut counts: CNo runs on
    // across profiles
    let data = ProjectData {
        structure_views: Some(vec![ApiStructureView {
            profiles: Some(vec![
                plain_profile(10.0, vec![cut(1.0, 2.0, 2.5)], vec![cut(3.0, 4.0, 2.5)]),
                plain_profile(
                    20.0,
                    vec![cut(5.0, 6.0, 0.0), cut(7.0, 8.0, 0.0)],
                    vec![cut(9.0, 1.0, 0.0), cut(2.0, 3.0, 0.0)],
                ),
            ]),
        }]),
    };
    let mut ex = ElumatecExporter::default();
    let res = ex.update_cuts(&data);
    assert!(res.is_ok());
    assert_eq!(ex.tag_count(), 3);
    for i in 0..3 {
        assert_eq!(ex.tag_at(i).get("CNo"), Some(Variant::Int(i as i32 + 1)));
        assert_eq!(ex.tag_at(i).get("CCount"), Some(Variant::Int(3)));
    }
    // CutLossR is the profile length plus the second extremity's loss
    assert_eq!(
        ex.tag_at(0).get("CutLossR"),
        Some(Variant::Float(12.5f32.to_bits()))
    );
    assert_eq!(ex.tag_at(0).get("CutLossL"), Some(Variant::Float(2.5f32.to_bits())));
}

#[test]
fn api_cuts_only_first_view() {
    let data = ProjectData {
        structure_views: Some(vec![
            ApiStructureView {
                profiles: Some(vec![plain_profile(
                    10.0,
                    vec![cut(1.0, 1.0, 0.0)],
                    vec![cut(1.0, 1.0, 0.0)],
                )]),
            },
            ApiStructureView {
                profiles: Some(vec![plain_profile(
                    20.0,
                    vec![cut(2.0, 2.0, 0.0)],
                    vec![cut(2.0, 2.0, 0.0)],
                )]),
            },
        ]),
    };
    let mut ex = ElumatecExporter::default();
    assert!(ex.update_cuts(&data).is_ok());
    assert_eq!(ex.tag_count(), 1);
    assert_eq!(
        ex.tag_at(0).get("CLength"),
        Some(Variant::Float(10.0f32.to_bits()))
    );
}

#[test]
fn api_cuts_errors() {
    let mut ex = ElumatecExporter::default();
    assert_eq!(
        ex.update_cuts(&ProjectData {
            structure_views: None
        }),
        Err(CutError::StructureViewsMissing)
    );
    assert_eq!(
        ex.update_cuts(&ProjectData {
            structure_views: Some(vec![])
        }),
        Err(CutError::StructureViewsEmpty)
    );
    assert_eq!(
        ex.update_cuts(&ProjectData {
            structure_views: Some(vec![ApiStructureView { profiles: None }])
        }),
        Err(CutError::ProfilesMissing)
    );
    assert_eq!(
        ex.update_cuts(&ProjectData {
            structure_views: Some(vec![ApiStructureView {
                profiles: Some(vec![ApiProfile {
                    length: None,
                    ext1: Some(vec![]),
                    ext2: Some(vec![]),
                    element: None,
                }]),
            }]),
        }),
        Err(CutError::FieldMissing)
    );
    assert_eq!(
        ex.update_cuts(&ProjectData {
            structure_views: Some(vec![ApiStructureView {
                profiles: Some(vec![plain_profile(1.0, vec![cut(0.0, 0.0, 0.0)], vec![])]),
            }]),
        }),
        Err(CutError::ExtremityMismatch)
    );
    // nothing was appended by any failing call
    assert_eq!(ex.tag_count(), 0);
}

fn machining_profile(ops: Vec<ApiOperation>) -> ApiProfile {
    ApiProfile {
        length: None,
        ext1: None,
        ext2: None,
        element: Some(ApiElement {
            machinings: Some(vec![ApiMachining {
                operations: Some(ops),
            }]),
        }),
    }
}

fn data_with_ops(ops: Vec<ApiOperation>) -> ProjectData {
    ProjectData {
        structure_views: Some(vec![ApiStructureView {
            profiles: Some(vec![machining_profile(ops)]),
        }]),
    }
}

#[test]
fn macros_stop_after_first_operation() {
    let data = data_with_ops(vec![
        ApiOperation { params: None },
        ApiOperation {
            params: Some(vec![
                ("depth".to_owned(), "3".to_owned()),
                ("v1".to_owned(), "5".to_owned()),
                ("v3".to_owned(), "hello".to_owned()),
            ]),
        },
        ApiOperation {
            params: Some(vec![("v1".to_owned(), "9".to_owned())]),
        },
    ]);
    let mut ex = ElumatecExporter::default();
    assert!(ex.update_macros(&data).is_ok());
    assert_eq!(ex.tag_count(), 1);
    let job = ex.tag_at(0);
    assert_eq!(job.name(), "JOB");
    // from the first operation that carries v parameters, not the later one
    assert_eq!(job.get("Var0"), Some(Variant::Int(5)));
    assert_eq!(job.get("Var2"), Some(Variant::String("hello".to_owned())));
    assert_eq!(job.get("depth"), None);
}

#[test]
fn macros_errors() {
    let mut ex = ElumatecExporter::default();
    assert_eq!(
        ex.update_macros(&ProjectData {
            structure_views: None
        }),
        Err(MacroError::StructureViewsMissing)
    );
    assert_eq!(
        ex.update_macros(&data_with_ops(vec![ApiOperation {
            params: Some(vec![("depth".to_owned(), "3".to_owned())]),
        }])),
        Err(MacroError::NoVariables)
    );
    // a key opening with `v` without a numeric tail is no variable
    assert_eq!(
        ex.update_macros(&data_with_ops(vec![ApiOperation {
            params: Some(vec![("velocity".to_owned(), "3".to_owned())]),
        }])),
        Err(MacroError::NoVariables)
    );
    // `v0` would name the undefined attribute Var{-1}
    assert_eq!(
        ex.update_macros(&data_with_ops(vec![ApiOperation {
            params: Some(vec![("v0".to_owned(), "3".to_owned())]),
        }])),
        Err(MacroError::BadVariable)
    );
}

#[test]
fn macros_pass_over_non_variable_keys() {
    // an operation whose only `v` key has no numeric tail does not
    // trigger the capture; the next operation's variables are mapped
    let data = data_with_ops(vec![
        ApiOperation {
            params: Some(vec![("velocity".to_owned(), "3".to_owned())]),
        },
        ApiOperation {
            params: Some(vec![("v1".to_owned(), "5".to_owned())]),
        },
    ]);
    let mut ex = ElumatecExporter::default();
    assert!(ex.update_macros(&data).is_ok());
    assert_eq!(ex.tag_count(), 1);
    let job = ex.tag_at(0);
    assert_eq!(job.get("Var0"), Some(Variant::Int(5)));
    assert_eq!(job.get("velocity"), None);
}

#[test]
fn registry_knows_its_vendors() {
    let exporter = Exporter::new();
    assert_eq!(exporter.vendors(), vec!["elumatec".to_owned()]);
    assert!(exporter.support("elumatec"));
    assert!(exporter.support("Elumatec"));
    assert!(exporter.support("ELUMATEC"));
    assert!(!exporter.support("unknown"));
}

#[test]
fn export_rejects_unknown_vendor() {
    let exporter = Exporter::new();
    let skeleton = ElumatecExporter::default();
    let source = SourceData::File(FlatExport { articles: vec![] });
    let res = exporter.export("nobody", &skeleton, &source);
    assert!(matches!(res, Err(ExportError::UnsupportedVendor)));
}

#[test]
fn export_file_discards_skeleton() {
    let exporter = Exporter::new();
    let skeleton =
        ElumatecExporter::read_template(":LEFTOVER\nA = 1").expect("template should parse");
    let source = SourceData::File(FlatExport { articles: vec![] });
    let outcome = exporter.export("elumatec", &skeleton, &source).unwrap();
    // the skeleton is dropped on the file path; only OPTIONS remains
    assert_eq!(
        outcome.text,
        ":OPTIONS\nOCreator\t=\t\"Elucad\"\nOScale\t=\t1\n\n"
    );
    assert!(outcome.macro_err.is_none());
    assert!(outcome.cuts_err.is_none());
}

#[test]
fn export_api_keeps_skeleton() {
    let exporter = Exporter::new();
    let skeleton = ElumatecExporter::read_template(":HEADER\nMachine = SBZ").unwrap();
    let source = SourceData::Api(ProjectData {
        structure_views: Some(vec![ApiStructureView {
            profiles: Some(vec![plain_profile(
                5.0,
                vec![cut(0.0, 0.0, 0.0)],
                vec![cut(0.0, 0.0, 0.0)],
            )]),
        }]),
    });
    let outcome = exporter.export("elumatec", &skeleton, &source).unwrap();
    assert!(outcome.text.starts_with(":HEADER\n"));
    assert!(outcome.text.contains(":CUT\n"));
    // no machinings anywhere: macro mapping reports, cut mapping succeeds
    assert_eq!(outcome.macro_err, Some(MacroError::NoVariables));
    assert!(outcome.cuts_err.is_none());
}

#[test]
fn project_queries() {
    assert_eq!(
        ProjectInfo::Id(8).query(),
        (
            "/project/search/findById".to_owned(),
            "id".to_owned(),
            "8".to_owned()
        )
    );
    assert_eq!(
        ProjectInfo::Name("import".to_owned()).query(),
        (
            "/project/search/findByName".to_owned(),
            "name".to_owned(),
            "import".to_owned()
        )
    );
    assert_eq!(
        ProjectInfo::Uuid("0488bf92-813f-4bbd-8e5f-16885d5b75df".to_owned()).query(),
        (
            "/project/search/findByUuid".to_owned(),
            "uuid".to_owned(),
            "0488bf92-813f-4bbd-8e5f-16885d5b75df".to_owned()
        )
    );
}
