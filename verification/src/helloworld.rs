//! The example plugin: a name, a description and a version.
use vstd::prelude::*;

verus! {

/// The example plugin.
pub struct Helloworld {
    name: String,
    descr: String,
}

impl Helloworld {
    pub closed spec fn name_view(&self) -> Seq<char> {
        self.name@
    }

    pub closed spec fn descr_view(&self) -> Seq<char> {
        self.descr@
    }

    /// A plugin called `name`, described by `descr`.
    pub fn new(name: String, descr: String) -> (h: Helloworld)
        ensures
            h.name_view() == name@,
            h.descr_view() == descr@,
    {
        Helloworld { name, descr }
    }

    /// The plugin's name.
    pub fn name(&self) -> (r: &str)
        ensures
            r@ == self.name_view(),
    {
        self.name.as_str()
    }

    /// The plugin's description.
    pub fn descr(&self) -> (r: &str)
        ensures
            r@ == self.descr_view(),
    {
        self.descr.as_str()
    }

    /// The plugin's version.
    pub fn version(&self) -> (r: &'static str)
        ensures
            r@ == "0.1.1"@,
    {
        "0.1.1"
    }
}

} // verus!
