use vstd::prelude::*;
use crate::node::NodeContent;

verus! {

/// A sample content type: what a node of a scene holds.
#[derive(Debug)]
pub enum DefaultContent {
    Mesh(String),
    Light(String),
}

impl Clone for DefaultContent {
    fn clone(&self) -> (copy: Self)
        ensures
            copy == *self,
    {
        match self {
            DefaultContent::Mesh(x) => DefaultContent::Mesh(x.clone()),
            DefaultContent::Light(x) => DefaultContent::Light(x.clone()),
        }
    }
}

impl DefaultContent {
    /// Returns the name of the mesh if the content is a mesh, and nothing if it
    /// is not.
    pub fn as_mesh(&self) -> (mesh: Option<&String>)
        ensures
            mesh == match self {
                DefaultContent::Mesh(x) => Some(x),
                DefaultContent::Light(_) => None,
            },
    {
        match self {
            DefaultContent::Mesh(x) => Some(x),
            DefaultContent::Light(_) => None,
        }
    }
}

impl<J> NodeContent<J> for DefaultContent {
    /// The name that the mesh or the light was given.
    open spec fn name_spec(&self) -> Seq<char> {
        match self {
            DefaultContent::Mesh(x) => x@,
            DefaultContent::Light(x) => x@,
        }
    }

    /// An update leaves the content and the jobs as they are.
    open spec fn update_spec(self, jobs: Seq<J>) -> (Self, Seq<J>) {
        (self, jobs)
    }

    fn get_name(&self) -> (name: String) {
        match self {
            DefaultContent::Mesh(x) => x.clone(),
            DefaultContent::Light(x) => x.clone(),
        }
    }

    fn update(&mut self, jobs: &mut Vec<J>) {
    }
}

} // verus!
