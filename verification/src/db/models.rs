//! Rows of the catalog: downloaded bottles, the files linked for them, and
//! the dependency edges between bottles.

use vstd::prelude::*;

verus! {

/// A bottle that was downloaded and unpacked.
#[derive(Debug)]
pub struct DownloadedBottle {
    id: i32,
    name: String,
    version: String,
    path: String,
}

/// A symlink that was published for a bottle.
#[derive(Debug)]
pub struct LinkedFile {
    id: i32,
    path: String,
}

/// A dependency edge between two rows. Without a dependent, the dependency
/// is a root: a bottle that the user asked for.
#[derive(Debug)]
pub struct Dependency {
    dependent_id: Option<i32>,
    dependency_id: i32,
}

impl DownloadedBottle {
    /// The row as the catalog holds it.
    pub fn new(id: i32, name: String, version: String, path: String) -> (row: DownloadedBottle)
        ensures
            row.spec_id() == id,
            row.spec_name() == name@,
            row.spec_version() == version@,
            row.spec_path() == path@,
    {
        DownloadedBottle { id, name, version, path }
    }

    /// The id of the row.
    pub closed spec fn spec_id(&self) -> i32 {
        self.id
    }

    /// The name of the bottle.
    pub closed spec fn spec_name(&self) -> Seq<char> {
        self.name@
    }

    /// The version of the bottle.
    pub closed spec fn spec_version(&self) -> Seq<char> {
        self.version@
    }

    /// The directory that the bottle was unpacked into.
    pub closed spec fn spec_path(&self) -> Seq<char> {
        self.path@
    }

    /// The id of the row.
    #[verifier::when_used_as_spec(spec_id)]
    pub fn id(&self) -> (id: i32)
        ensures
            id == self.spec_id(),
    {
        self.id
    }

    /// The name of the bottle.
    pub fn name(&self) -> (name: &str)
        ensures
            name@ == self.spec_name(),
    {
        self.name.as_str()
    }

    /// The version of the bottle.
    pub fn version(&self) -> (version: &str)
        ensures
            version@ == self.spec_version(),
    {
        self.version.as_str()
    }

    /// The directory that the bottle was unpacked into.
    pub fn path(&self) -> (path: &str)
        ensures
            path@ == self.spec_path(),
    {
        self.path.as_str()
    }
}

impl Clone for DownloadedBottle {
    fn clone(&self) -> (copy: Self)
        ensures
            copy.spec_id() == self.spec_id(),
            copy.spec_name() == self.spec_name(),
            copy.spec_version() == self.spec_version(),
            copy.spec_path() == self.spec_path(),
    {
        DownloadedBottle {
            id: self.id,
            name: self.name.clone(),
            version: self.version.clone(),
            path: self.path.clone(),
        }
    }
}

impl LinkedFile {
    /// The row as the catalog holds it.
    pub fn new(id: i32, path: String) -> (row: LinkedFile)
        ensures
            row.spec_id() == id,
            row.spec_path() == path@,
    {
        LinkedFile { id, path }
    }

    /// The id of the row.
    pub closed spec fn spec_id(&self) -> i32 {
        self.id
    }

    /// Where the symlink stands.
    pub closed spec fn spec_path(&self) -> Seq<char> {
        self.path@
    }

    /// The id of the row.
    #[verifier::when_used_as_spec(spec_id)]
    pub fn id(&self) -> (id: i32)
        ensures
            id == self.spec_id(),
    {
        self.id
    }

    /// Where the symlink stands.
    pub fn path(&self) -> (path: &str)
        ensures
            path@ == self.spec_path(),
    {
        self.path.as_str()
    }
}

impl Dependency {
    /// The row as the catalog holds it.
    pub fn new(dependent_id: Option<i32>, dependency_id: i32) -> (row: Dependency)
        ensures
            row.spec_dependent_id() == dependent_id,
            row.spec_dependency_id() == dependency_id,
    {
        Dependency { dependent_id, dependency_id }
    }

    /// The row of the dependent bottle; `None` for a root.
    pub closed spec fn spec_dependent_id(&self) -> Option<i32> {
        self.dependent_id
    }

    /// The row of the bottle that is depended on.
    pub closed spec fn spec_dependency_id(&self) -> i32 {
        self.dependency_id
    }

    /// The row of the dependent bottle; `None` for a root.
    #[verifier::when_used_as_spec(spec_dependent_id)]
    pub fn dependent_id(&self) -> (id: Option<i32>)
        ensures
            id == self.spec_dependent_id(),
    {
        self.dependent_id
    }

    /// The row of the bottle that is depended on.
    #[verifier::when_used_as_spec(spec_dependency_id)]
    pub fn dependency_id(&self) -> (id: i32)
        ensures
            id == self.spec_dependency_id(),
    {
        self.dependency_id
    }
}

} // verus!
