//! The plain data entity held inside each guarded cell.
use vstd::prelude::*;

verus! {

/// One stored fact. The identifier is generated once at creation and is
/// immutable for the record's lifetime; tags are matched exactly, with no
/// normalization; `name` and `data` carry arbitrary text, empty included.
#[derive(Debug)]
pub struct Information {
    pub id: u128,
    pub tags: Vec<String>,
    pub name: String,
    pub data: String,
}

/// The mathematical shape of a record: every field as a plain sequence.
pub struct InformationView {
    pub id: u128,
    pub tags: Seq<Seq<char>>,
    pub name: Seq<char>,
    pub data: Seq<char>,
}

impl View for Information {
    type V = InformationView;

    open spec fn view(&self) -> InformationView {
        InformationView {
            id: self.id,
            tags: self.tags@.map_values(|t: String| t@),
            name: self.name@,
            data: self.data@,
        }
    }
}

/// A copy of a tag list, equal in every element's characters.
pub fn clone_tags(tags: &Vec<String>) -> (r: Vec<String>)
    ensures
        r@.map_values(|t: String| t@) == tags@.map_values(|t: String| t@),
{
    let mut r: Vec<String> = Vec::new();
    let mut k: usize = 0;
    while k < tags.len()
        invariant
            k <= tags@.len(),
            r@.len() == k,
            forall|m: int| 0 <= m < k ==> r@[m]@ == tags@[m]@,
        decreases tags@.len() - k,
    {
        r.push(tags[k].clone());
        k = k + 1;
    }
    proof {
        assert(r@.map_values(|t: String| t@) =~= tags@.map_values(|t: String| t@));
    }
    r
}

impl Clone for Information {
    /// The copy has the same identifier and the same characters in
    /// every field.
    fn clone(&self) -> (r: Self)
        ensures
            r@ == self@,
    {
        let r = Information {
            id: self.id,
            tags: clone_tags(&self.tags),
            name: self.name.clone(),
            data: self.data.clone(),
        };
        proof {
            assert(r@ == self@);
        }
        r
    }
}

} // verus!
