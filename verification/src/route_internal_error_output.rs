use vstd::prelude::*;

verus! {

/// A stable, serializable rendering of an internal diagnostic: its short
/// display text (`name`) and its full debug text (`debug`).
#[derive(Clone, Debug, PartialEq)]
pub struct RouteInternalErrorOutput {
    pub name: String,
    pub debug: String,
}

/// The mathematical model of a [`RouteInternalErrorOutput`].
pub struct InternalErrorView {
    pub name: Seq<char>,
    pub debug: Seq<char>,
}

impl View for RouteInternalErrorOutput {
    type V = InternalErrorView;

    open spec fn view(&self) -> InternalErrorView {
        InternalErrorView { name: self.name@, debug: self.debug@ }
    }
}

} // verus!
