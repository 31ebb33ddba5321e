//! Project resolution helpers: the ways a project may be identified and
//! the search query each of them maps to. The HTTP call itself and the
//! reading of its response live with the I/O around the library.
#![allow(unused_imports)]

use vstd::prelude::*;
use crate::text::{chars_string, dec_digits, push_dec};

verus! {

/// How a project is identified: by UUID, by numeric id, or by name.
pub enum ProjectInfo {
    Uuid(String),
    Id(u16),
    Name(String),
}

impl ProjectInfo {
    /// The search endpoint, parameter name and parameter value that
    /// resolve this identifier to a project UUID.
    pub fn query(&self) -> (r: (String, String, String))
        ensures
            match self {
                ProjectInfo::Id(id) => r.0@ == ("/project/search/findById")@ && r.1@ == ("id")@
                    && r.2@ == dec_digits(*id as int),
                ProjectInfo::Name(name) => r.0@ == ("/project/search/findByName")@ && r.1@ == (
                "name")@ && r.2@ == name@,
                ProjectInfo::Uuid(uuid) => r.0@ == ("/project/search/findByUuid")@ && r.1@ == (
                "uuid")@ && r.2@ == uuid@,
            },
    {
        match self {
            ProjectInfo::Id(id) => {
                let mut digits: Vec<char> = Vec::new();
                push_dec(*id as u64, &mut digits);
                (
                    "/project/search/findById".to_owned(),
                    "id".to_owned(),
                    chars_string(&digits),
                )
            },
            ProjectInfo::Name(name) => (
                "/project/search/findByName".to_owned(),
                "name".to_owned(),
                name.clone(),
            ),
            ProjectInfo::Uuid(uuid) => (
                "/project/search/findByUuid".to_owned(),
                "uuid".to_owned(),
                uuid.clone(),
            ),
        }
    }
}

} // verus!
