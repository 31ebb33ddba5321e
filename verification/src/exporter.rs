//! The vendor registry and export orchestration: which vendors are
//! implemented, case-insensitive vendor lookup, and the dispatch of one
//! export call to the vendor engine.
#![allow(unused_imports)]

use vstd::prelude::*;
use vstd::string::StrSliceExecFns;
use crate::elumatec::data::{FlatExport, ProjectData};
use crate::elumatec::tag::TagView;
use crate::elumatec::{
    api_cuts_bounded, api_doc, document_text, file_doc, CutError, ElumatecExporter, MacroError,
};

verus! {

/// Why an export call was refused before any document was built.
#[derive(Clone, Copy, Debug, PartialEq, Eq, Structural)]
pub enum ExportError {
    /// No exporter is implemented for the vendor named.
    UnsupportedVendor,
    /// A file source does not name an existing regular file.
    SourceNotFound,
    /// No project matched the given identifier.
    ProjectNotResolved,
}

/// The decoded input of one export call: fetched project data, or a
/// flat file export.
pub enum SourceData {
    Api(ProjectData),
    File(FlatExport),
}

/// What one export call renders and reports.
pub struct ExportOutcome {
    /// The rendered document text.
    pub text: String,
    /// Macro-mapping failure of the fetch path, reported, not fatal.
    pub macro_err: Option<MacroError>,
    /// Cut-mapping failure of the fetch path, reported, not fatal.
    pub cuts_err: Option<CutError>,
}

/// The ASCII code of `c` with an ASCII capital folded to small.
pub open spec fn lower_code(c: char) -> int {
    if 65 <= c as u32 && c as u32 <= 90 {
        c as u32 + 32
    } else {
        c as u32 as int
    }
}

/// Case-insensitive equality on ASCII letters, as lowercasing both
/// sides gives it.
pub open spec fn eq_ignore_ascii_case(a: Seq<char>, b: Seq<char>) -> bool {
    a.len() == b.len() && forall|i: int| 0 <= i < a.len() ==> lower_code(a[i]) == lower_code(b[i])
}

fn chars_eq_ignore_case(a: &str, b: &str) -> (r: bool)
    ensures
        r == eq_ignore_ascii_case(a@, b@),
{
    let na = a.unicode_len();
    let nb = b.unicode_len();
    if na != nb {
        return false;
    }
    let mut i: usize = 0;
    while i < na
        invariant
            0 <= i <= na,
            na == a@.len(),
            na == b@.len(),
            forall|j: int| 0 <= j < i ==> lower_code(a@[j]) == lower_code(b@[j]),
        decreases na - i,
    {
        let ca = a.get_char(i) as u32;
        let cb = b.get_char(i) as u32;
        let la = if 65 <= ca && ca <= 90 {
            ca + 32
        } else {
            ca
        };
        let lb = if 65 <= cb && cb <= 90 {
            cb + 32
        } else {
            cb
        };
        if la != lb {
            return false;
        }
        i += 1;
    }
    true
}

/// Some registered vendor name matches `vendor` up to ASCII case.
pub open spec fn vendor_match(names: Seq<Seq<char>>, vendor: Seq<char>) -> int
    decreases names.len(),
{
    if names.len() == 0 {
        -1
    } else if eq_ignore_ascii_case(names[0], vendor) {
        0
    } else {
        let r = vendor_match(names.drop_first(), vendor);
        if r < 0 {
            -1
        } else {
            1 + r
        }
    }
}

pub proof fn lemma_vendor_match(names: Seq<Seq<char>>, vendor: Seq<char>)
    ensures
        vendor_match(names, vendor) == -1 ==> forall|j: int|
            0 <= j < names.len() ==> !eq_ignore_ascii_case(#[trigger] names[j], vendor),
        vendor_match(names, vendor) >= 0 ==> vendor_match(names, vendor) < names.len()
            && eq_ignore_ascii_case(names[vendor_match(names, vendor)], vendor) && forall|j: int|
            0 <= j < vendor_match(names, vendor) ==> !eq_ignore_ascii_case(
                #[trigger] names[j],
                vendor,
            ),
    decreases names.len(),
{
    if names.len() == 0 {
    } else if eq_ignore_ascii_case(names[0], vendor) {
    } else {
        lemma_vendor_match(names.drop_first(), vendor);
        let d = names.drop_first();
        let r = vendor_match(d, vendor);
        if r < 0 {
            assert forall|j: int|
                0 <= j < names.len() implies !eq_ignore_ascii_case(#[trigger] names[j], vendor) by {
                if j > 0 {
                    assert(d[j - 1] == names[j]);
                }
            }
        } else {
            assert(d[r] == names[r + 1]);
            assert forall|j: int|
                0 <= j < vendor_match(names, vendor) implies !eq_ignore_ascii_case(
                #[trigger] names[j],
                vendor,
            ) by {
                if j > 0 {
                    assert(d[j - 1] == names[j]);
                }
            }
        }
    }
}

/// The registry of implemented vendor exporters, by name.
pub struct Exporter {
    names: Vec<String>,
}

impl View for Exporter {
    type V = Seq<Seq<char>>;

    closed spec fn view(&self) -> Seq<Seq<char>> {
        self.names@.map_values(|s: String| s@)
    }
}

impl Exporter {
    /// The registry with every implemented vendor: only `elumatec`.
    pub fn new() -> (r: Exporter)
        ensures
            r@ == seq![("elumatec")@],
    {
        let mut names: Vec<String> = Vec::new();
        names.push("elumatec".to_owned());
        let r = Exporter { names };
        proof {
            assert(r@ =~= seq![("elumatec")@]);
        }
        r
    }

    /// The names of the implemented vendors.
    pub fn vendors(&self) -> (r: Vec<String>)
        ensures
            r@.map_values(|s: String| s@) == self@,
    {
        let n = self.names.len();
        let mut r: Vec<String> = Vec::new();
        while r.len() < n
            invariant
                r@.len() <= n,
                n == self.names@.len(),
                r@.map_values(|s: String| s@) == self@.take(r@.len() as int),
            decreases n - r.len(),
        {
            let i = r.len();
            let name = self.names[i].clone();
            r.push(name);
            proof {
                assert(r@.map_values(|s: String| s@) =~= self@.take(i + 1));
            }
        }
        proof {
            assert(self@.take(n as int) =~= self@);
        }
        r
    }

    /// The registered name that matches `vendor` up to ASCII case, if
    /// any.
    fn get_key(&self, vendor: &str) -> (r: Option<String>)
        ensures
            match r {
                Some(key) => vendor_match(self@, vendor@) >= 0 && key@ == self@[vendor_match(
                    self@,
                    vendor@,
                )],
                None => vendor_match(self@, vendor@) == -1,
            },
    {
        let n = self.names.len();
        let mut i: usize = 0;
        proof {
            lemma_vendor_match(self@, vendor@);
        }
        while i < n
            invariant
                0 <= i <= n,
                n == self.names@.len(),
                forall|j: int| 0 <= j < i ==> !eq_ignore_ascii_case(#[trigger] self@[j], vendor@),
                vendor_match(self@, vendor@) >= 0 ==> vendor_match(self@, vendor@)
                    < self.names@.len() && eq_ignore_ascii_case(
                    self@[vendor_match(self@, vendor@)],
                    vendor@,
                ) && forall|j: int|
                    0 <= j < vendor_match(self@, vendor@) ==> !eq_ignore_ascii_case(
                        #[trigger] self@[j],
                        vendor@,
                    ),
                vendor_match(self@, vendor@) == -1 ==> forall|j: int|
                    0 <= j < self.names@.len() ==> !eq_ignore_ascii_case(
                        #[trigger] self@[j],
                        vendor@,
                    ),
            decreases n - i,
        {
            proof {
                assert(self@[i as int] == self.names@[i as int]@);
            }
            if chars_eq_ignore_case(self.names[i].as_str(), vendor) {
                proof {
                    let k = vendor_match(self@, vendor@);
                    assert(k >= 0);
                    if k > i {
                        assert(!eq_ignore_ascii_case(self@[i as int], vendor@));
                    }
                    assert(k == i);
                }
                return Some(self.names[i].clone());
            }
            i += 1;
        }
        None
    }

    /// Whether a vendor of this name, compared without regard to ASCII
    /// case, is implemented.
    pub fn support(&self, vendor: &str) -> (r: bool)
        ensures
            r == (vendor_match(self@, vendor@) >= 0),
    {
        self.get_key(vendor).is_some()
    }

    /// One export call: refuse an unknown vendor, else build the
    /// document from the source data over the template skeleton and
    /// render it. A flat file discards the skeleton; fetched data
    /// extends it, with mapping failures reported in the outcome, not
    /// fatal.
    pub fn export(&self, vendor: &str, skeleton: &ElumatecExporter, source: &SourceData) -> (r:
        Result<ExportOutcome, ExportError>)
        requires
            skeleton.wf(),
            match source {
                SourceData::Api(d) => api_cuts_bounded(d@),
                SourceData::File(f) => f@.articles.len() < 0x8000_0000,
            },
        ensures
            match r {
                Err(e) => e == ExportError::UnsupportedVendor && vendor_match(self@, vendor@)
                    == -1,
                Ok(outcome) => vendor_match(self@, vendor@) >= 0 && match source {
                    SourceData::Api(d) => {
                        let built = api_doc(skeleton@, d@);
                        &&& outcome.text@ == document_text(built.0)
                        &&& outcome.macro_err == built.1
                        &&& outcome.cuts_err == built.2
                    },
                    SourceData::File(f) => {
                        &&& outcome.text@ == document_text(
                            file_doc(Seq::<TagView>::empty(), f@.articles),
                        )
                        &&& outcome.macro_err is None
                        &&& outcome.cuts_err is None
                    },
                },
            },
    {
        if self.get_key(vendor).is_none() {
            return Err(ExportError::UnsupportedVendor);
        }
        let mut working = skeleton.duplicate();
        match source {
            SourceData::Api(d) => {
                let (macro_err, cuts_err) = working.update_from_api(d);
                let text = working.to_string();
                Ok(ExportOutcome { text, macro_err, cuts_err })
            },
            SourceData::File(f) => {
                working.clear_tags();
                working.update_from_file(f);
                let text = working.to_string();
                Ok(ExportOutcome { text, macro_err: None, cuts_err: None })
            },
        }
    }
}

} // verus!
