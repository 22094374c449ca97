//! Filesystem elements and the listing capability that a browser works over.
//!
//! Names and paths are byte strings, so that every name of the host can be
//! carried, whatever its encoding.

use vstd::prelude::*;

pub mod browser;
pub mod display_name;
pub mod listing;
pub mod mapped_fs;
pub mod metadata;
pub mod path;

verus! {

/// A date-time with its offset from UTC, as `time` holds it. The library has
/// such values made by `time` and carries them in elements; it never looks
/// inside one.
#[verifier::external_type_specification]
#[verifier::external_body]
pub struct ExOffsetDateTime(time::OffsetDateTime);

/// Represents a file or directory in a file system.
#[derive(Debug, PartialEq, Eq, Clone)]
pub struct FSElement {
    pub name: Vec<u8>,
    pub created: Option<time::OffsetDateTime>,
    pub modified: Option<time::OffsetDateTime>,
    pub size: u64,
    /// True if the element is a file, false if it is a directory
    pub is_file: bool,
}

/// The mathematical value of an [`FSElement`]: the same fields, with the name
/// as a sequence of bytes.
pub ghost struct ElementView {
    pub name: Seq<u8>,
    pub created: Option<time::OffsetDateTime>,
    pub modified: Option<time::OffsetDateTime>,
    pub size: u64,
    pub is_file: bool,
}

impl View for FSElement {
    type V = ElementView;

    open spec fn view(&self) -> ElementView {
        ElementView {
            name: self.name@,
            created: self.created,
            modified: self.modified,
            size: self.size,
            is_file: self.is_file,
        }
    }
}

/// The values of a sequence of elements.
pub open spec fn element_views(elements: Seq<FSElement>) -> Seq<ElementView> {
    elements.map_values(|element: FSElement| element@)
}

/// A copy of an element.
pub fn copy_element(element: &FSElement) -> (copy: FSElement)
    ensures
        copy@ == element@,
{
    FSElement {
        name: crate::fs::path::copy_bytes(element.name.as_slice()),
        created: element.created,
        modified: element.modified,
        size: element.size,
        is_file: element.is_file,
    }
}

/// A copy of a list of elements.
pub fn copy_elements(elements: &Vec<FSElement>) -> (copy: Vec<FSElement>)
    ensures
        element_views(copy@) == element_views(elements@),
{
    let mut copy: Vec<FSElement> = Vec::with_capacity(elements.len());
    let mut i: usize = 0;
    while i < elements.len()
        invariant
            i <= elements.len(),
            copy.len() == i,
            forall|k: int| 0 <= k < i ==> copy@[k]@ == elements@[k]@,
        decreases elements.len() - i,
    {
        copy.push(copy_element(&elements[i]));
        i += 1;
    }
    assert(element_views(copy@) =~= element_views(elements@));
    copy
}

/// Anything that can list the elements found at a path.
pub trait FS {
    type Error;

    /// Whether `outcome` is an answer that this file system gives for `path`.
    /// By default every answer is possible; a file system whose answers are
    /// known may say which they are.
    open spec fn lists(&self, path: Seq<u8>, outcome: Result<Vec<FSElement>, Self::Error>) -> bool {
        true
    }

    /// List the elements at a specified path within the file system.
    fn list(&self, path: &[u8]) -> (outcome: Result<Vec<FSElement>, Self::Error>)
        ensures
            self.lists(path@, outcome),
    ;
}

} // verus!
