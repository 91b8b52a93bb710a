use vstd::prelude::*;

use crate::lifecycle::State;

verus! {

/// The capability contract a record must satisfy to be stored in a
/// [`crate::store::Bowl`]: it exposes a human-readable name (informational
/// only), an identifier that is unique within its organization partition, an
/// organization name, and a lifecycle state that can be replaced in place.
///
/// The spec functions give the mathematical reading of each field; the
/// executable getters must agree with them, and `set_state` must replace
/// the state and nothing else.
pub trait MediaTrait: Sized {
    /// The record's human-readable name.
    spec fn spec_name(&self) -> Seq<char>;

    /// The record's identifier, the key within its partition.
    spec fn spec_uuid(&self) -> Seq<char>;

    /// The record's current lifecycle state.
    spec fn spec_state(&self) -> State;

    /// The organization (tenant) the record belongs to.
    spec fn spec_organization(&self) -> Seq<char>;

    fn get_name(&self) -> (r: &str)
        ensures
            r@ == self.spec_name(),
    ;

    fn get_uuid(&self) -> (r: &str)
        ensures
            r@ == self.spec_uuid(),
    ;

    fn get_state(&self) -> (r: &State)
        ensures
            *r == self.spec_state(),
    ;

    fn get_organization(&self) -> (r: &str)
        ensures
            r@ == self.spec_organization(),
    ;

    /// Replaces the lifecycle state in place, leaving every other field
    /// untouched.
    fn set_state(&mut self, state: State)
        ensures
            final(self).spec_state() == state,
            final(self).spec_name() == old(self).spec_name(),
            final(self).spec_uuid() == old(self).spec_uuid(),
            final(self).spec_organization() == old(self).spec_organization(),
    ;
}

/// A minimal concrete record shape: a media file known by name, identifier,
/// lifecycle state and owning organization.
#[derive(Clone, Debug, PartialEq, Eq)]
pub struct MediaFile {
    name: String,
    uuid: String,
    state: State,
    organization: String,
}

impl MediaFile {
    pub fn new(name: &str, uuid: &str, state: State, organization: &str) -> (r: Self)
        ensures
            r.spec_name() == name@,
            r.spec_uuid() == uuid@,
            r.spec_state() == state,
            r.spec_organization() == organization@,
    {
        MediaFile {
            name: name.to_owned(),
            uuid: uuid.to_owned(),
            state,
            organization: organization.to_owned(),
        }
    }
}

impl MediaTrait for MediaFile {
    closed spec fn spec_name(&self) -> Seq<char> {
        self.name@
    }

    closed spec fn spec_uuid(&self) -> Seq<char> {
        self.uuid@
    }

    closed spec fn spec_state(&self) -> State {
        self.state
    }

    closed spec fn spec_organization(&self) -> Seq<char> {
        self.organization@
    }

    fn get_name(&self) -> (r: &str) {
        self.name.as_str()
    }

    fn get_uuid(&self) -> (r: &str) {
        self.uuid.as_str()
    }

    fn get_state(&self) -> (r: &State) {
        &self.state
    }

    fn get_organization(&self) -> (r: &str) {
        self.organization.as_str()
    }

    fn set_state(&mut self, state: State) {
        self.state = state;
    }
}

/// A second minimal record shape: a thumbnail image tracked alongside the
/// media files. Distinct shapes live in stores of their own, so records of
/// one shape can never be returned for another, even under colliding
/// coordinates.
#[derive(Clone, Debug, PartialEq, Eq)]
pub struct Thumbnail {
    label: String,
    uuid: String,
    state: State,
    organization: String,
}

impl Thumbnail {
    pub fn new(label: &str, uuid: &str, state: State, organization: &str) -> (r: Self)
        ensures
            r.spec_name() == label@,
            r.spec_uuid() == uuid@,
            r.spec_state() == state,
            r.spec_organization() == organization@,
    {
        Thumbnail {
            label: label.to_owned(),
            uuid: uuid.to_owned(),
            state,
            organization: organization.to_owned(),
        }
    }
}

impl MediaTrait for Thumbnail {
    closed spec fn spec_name(&self) -> Seq<char> {
        self.label@
    }

    closed spec fn spec_uuid(&self) -> Seq<char> {
        self.uuid@
    }

    closed spec fn spec_state(&self) -> State {
        self.state
    }

    closed spec fn spec_organization(&self) -> Seq<char> {
        self.organization@
    }

    fn get_name(&self) -> (r: &str) {
        self.label.as_str()
    }

    fn get_uuid(&self) -> (r: &str) {
        self.uuid.as_str()
    }

    fn get_state(&self) -> (r: &State) {
        &self.state
    }

    fn get_organization(&self) -> (r: &str) {
        self.organization.as_str()
    }

    fn set_state(&mut self, state: State) {
        self.state = state;
    }
}

} // verus!
