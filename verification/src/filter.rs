use vstd::prelude::*;

use crate::entry::{Entry, EntryModel};

verus! {

/// Which entries are visible: every one, only the not-yet-completed, or only
/// the completed.
#[derive(Clone, Copy, Debug, PartialEq, Eq, Structural)]
pub enum Filter {
    All,
    Active,
    Completed,
}

impl Filter {
    /// The predicate this filter stands for.
    pub open spec fn accepts(self, e: EntryModel) -> bool {
        match self {
            Filter::All => true,
            Filter::Active => !e.completed,
            Filter::Completed => e.completed,
        }
    }

    /// Decide whether `entry` is visible under this filter.
    pub fn fit(&self, entry: &Entry) -> (r: bool)
        ensures
            r == self.accepts(entry@),
    {
        match self {
            Filter::All => true,
            Filter::Active => !entry.completed,
            Filter::Completed => entry.completed,
        }
    }

    /// Every filter, in the order the interface presents them.
    pub fn variants() -> (r: Vec<Filter>)
        ensures
            r@ == seq![Filter::All, Filter::Active, Filter::Completed],
    {
        let mut v: Vec<Filter> = Vec::new();
        v.push(Filter::All);
        v.push(Filter::Active);
        v.push(Filter::Completed);
        proof {
            assert(v@ =~= seq![Filter::All, Filter::Active, Filter::Completed]);
        }
        v
    }

    /// Route fragment attached to this filter for external linking.
    pub open spec fn href_spec(self) -> Seq<char> {
        match self {
            Filter::All => "#/"@,
            Filter::Active => "#/active"@,
            Filter::Completed => "#/completed"@,
        }
    }

    /// The route fragment as text.
    pub fn href(&self) -> (r: String)
        ensures
            r@ == self.href_spec(),
    {
        match self {
            Filter::All => "#/".to_owned(),
            Filter::Active => "#/active".to_owned(),
            Filter::Completed => "#/completed".to_owned(),
        }
    }

    /// Display name of this filter.
    pub open spec fn label_spec(self) -> Seq<char> {
        match self {
            Filter::All => "All"@,
            Filter::Active => "Active"@,
            Filter::Completed => "Completed"@,
        }
    }

    /// The display name as text.
    pub fn label(&self) -> (r: String)
        ensures
            r@ == self.label_spec(),
    {
        match self {
            Filter::All => "All".to_owned(),
            Filter::Active => "Active".to_owned(),
            Filter::Completed => "Completed".to_owned(),
        }
    }
}

} // verus!
