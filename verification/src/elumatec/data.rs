//! Plain-value models of the two input shapes the mapping engine reads:
//! the nested project data the data service returns, and the flat file
//! export. Numeric fields hold IEEE binary32 bit patterns; a field the
//! source may leave null is an `Option`.
#![allow(unused_imports)]

use vstd::prelude::*;

verus! {

/// One cut of a profile extremity: horizontal angle, vertical angle and
/// loss, each an IEEE binary32 bit pattern.
#[derive(Clone, Copy, Debug, PartialEq, Eq, Structural)]
pub struct ApiCut {
    pub h: u32,
    pub v: u32,
    pub z: u32,
}

/// One machining operation: its parameters as name/text pairs, in the
/// order the source hands them out, or nothing when the source gives
/// none.
pub struct ApiOperation {
    pub params: Option<Vec<(String, String)>>,
}

/// Mathematical shape of an operation.
pub struct ApiOperationView {
    pub params: Option<Seq<(Seq<char>, Seq<char>)>>,
}

impl View for ApiOperation {
    type V = ApiOperationView;

    open spec fn view(&self) -> ApiOperationView {
        ApiOperationView {
            params: match self.params {
                Some(ps) => Some(ps@.map_values(|p: (String, String)| (p.0@, p.1@))),
                None => None,
            },
        }
    }
}

/// One machining block: its operations, when given.
pub struct ApiMachining {
    pub operations: Option<Vec<ApiOperation>>,
}

pub struct ApiMachiningView {
    pub operations: Option<Seq<ApiOperationView>>,
}

impl View for ApiMachining {
    type V = ApiMachiningView;

    open spec fn view(&self) -> ApiMachiningView {
        ApiMachiningView {
            operations: match self.operations {
                Some(ops) => Some(ops@.map_values(|o: ApiOperation| o@)),
                None => None,
            },
        }
    }
}

/// The element of a profile: its machining blocks, when given.
pub struct ApiElement {
    pub machinings: Option<Vec<ApiMachining>>,
}

pub struct ApiElementView {
    pub machinings: Option<Seq<ApiMachiningView>>,
}

impl View for ApiElement {
    type V = ApiElementView;

    open spec fn view(&self) -> ApiElementView {
        ApiElementView {
            machinings: match self.machinings {
                Some(ms) => Some(ms@.map_values(|m: ApiMachining| m@)),
                None => None,
            },
        }
    }
}

/// One profile of a nomenclature: its length, the cuts of its two
/// extremities, and its element, each when given.
pub struct ApiProfile {
    pub length: Option<u32>,
    pub ext1: Option<Vec<ApiCut>>,
    pub ext2: Option<Vec<ApiCut>>,
    pub element: Option<ApiElement>,
}

pub struct ApiProfileView {
    pub length: Option<u32>,
    pub ext1: Option<Seq<ApiCut>>,
    pub ext2: Option<Seq<ApiCut>>,
    pub element: Option<ApiElementView>,
}

impl View for ApiProfile {
    type V = ApiProfileView;

    open spec fn view(&self) -> ApiProfileView {
        ApiProfileView {
            length: self.length,
            ext1: match self.ext1 {
                Some(cs) => Some(cs@),
                None => None,
            },
            ext2: match self.ext2 {
                Some(cs) => Some(cs@),
                None => None,
            },
            element: match self.element {
                Some(ref e) => Some(e@),
                None => None,
            },
        }
    }
}

/// One structure view: its nomenclature's profiles, when given.
pub struct ApiStructureView {
    pub profiles: Option<Vec<ApiProfile>>,
}

pub struct ApiStructureViewView {
    pub profiles: Option<Seq<ApiProfileView>>,
}

impl View for ApiStructureView {
    type V = ApiStructureViewView;

    open spec fn view(&self) -> ApiStructureViewView {
        ApiStructureViewView {
            profiles: match self.profiles {
                Some(ps) => Some(ps@.map_values(|p: ApiProfile| p@)),
                None => None,
            },
        }
    }
}

/// The project data one fetch returns: its structure views, or nothing
/// when the field is null.
pub struct ProjectData {
    pub structure_views: Option<Vec<ApiStructureView>>,
}

pub struct ProjectDataView {
    pub structure_views: Option<Seq<ApiStructureViewView>>,
}

impl View for ProjectData {
    type V = ProjectDataView;

    open spec fn view(&self) -> ProjectDataView {
        ProjectDataView {
            structure_views: match self.structure_views {
                Some(vs) => Some(vs@.map_values(|v: ApiStructureView| v@)),
                None => None,
            },
        }
    }
}

/// The cut data of one `profile` article of a flat export: length and
/// the four angles, as IEEE binary32 bit patterns.
#[derive(Clone, Copy, Debug, PartialEq, Eq, Structural)]
pub struct FlatProfile {
    pub length: u32,
    pub angle_lh: u32,
    pub angle_lv: u32,
    pub angle_rh: u32,
    pub angle_rv: u32,
}

/// One article of a flat export: its type, and its cut data when the
/// type is `profile`.
pub struct FlatArticle {
    pub kind: String,
    pub profile: Option<FlatProfile>,
}

pub struct FlatArticleView {
    pub kind: Seq<char>,
    pub profile: Option<FlatProfile>,
}

impl View for FlatArticle {
    type V = FlatArticleView;

    open spec fn view(&self) -> FlatArticleView {
        FlatArticleView { kind: self.kind@, profile: self.profile }
    }
}

/// A flat file export: its articles in order.
pub struct FlatExport {
    pub articles: Vec<FlatArticle>,
}

pub struct FlatExportView {
    pub articles: Seq<FlatArticleView>,
}

impl View for FlatExport {
    type V = FlatExportView;

    open spec fn view(&self) -> FlatExportView {
        FlatExportView { articles: self.articles@.map_values(|a: FlatArticle| a@) }
    }
}

} // verus!
