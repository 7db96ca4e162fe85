//! The map from container id to the path of its heap file, and its saved form:
//! a JSON object whose keys are the container ids written in decimal.

use vstd::prelude::*;
use std::collections::BTreeMap;

verus! {

#[verifier::external_type_specification]
#[verifier::external_body]
pub struct ExJsonError(serde_json::Error);

/// The JSON text that serde_json writes for a map from container id to path.
pub uninterp spec fn json_of_paths(m: Map<u16, Seq<char>>) -> Seq<char>;

pub open spec fn paths_view(m: Map<u16, String>) -> Map<u16, Seq<char>> {
    m.map_values(|s: String| s@)
}

/// Relies on serde_json::to_string: the JSON object it writes for the map
/// depends on the map alone (a `BTreeMap` is written in key order), and it
/// cannot fail here: `u16` keys are written as quoted decimals, the values are
/// strings, and the output goes to a `Vec`.
#[verifier::external_body]
fn paths_to_json(m: &BTreeMap<u16, String>) -> (r: Result<String, serde_json::Error>)
    ensures
        r is Ok,
        r matches Ok(t) ==> t@ == json_of_paths(paths_view(m@)),
{
    serde_json::to_string(m)
}

/// `r` is the map `m` whenever `text` is the JSON text written for `m`.
pub open spec fn reads_back(text: Seq<char>, r: Result<BTreeMap<u16, String>, serde_json::Error>) -> bool {
    forall|m: Map<u16, Seq<char>>|
        m.dom().finite() && text == #[trigger] json_of_paths(m) ==> (r matches Ok(v) && paths_view(v@) == m)
}

/// The map that serde_json reads from a JSON text, or none when it rejects the text.
pub uninterp spec fn paths_of_json(s: Seq<char>) -> Option<Map<u16, Seq<char>>>;

/// Relies on serde_json::from_str: its result depends on the text alone (any
/// JSON object whose keys are decimal `u16`s and whose values are strings, in
/// any key order), and it reads back, as an equal map, the text that
/// serde_json::to_string wrote for a map from `u16` to `String`.
#[verifier::external_body]
fn paths_from_json(text: &str) -> (r: Result<BTreeMap<u16, String>, serde_json::Error>)
    ensures
        r matches Ok(v) ==> paths_of_json(text@) == Some(paths_view(v@)),
        r is Err ==> paths_of_json(text@) is None,
        reads_back(text@, r),
{
    serde_json::from_str(text)
}

/// Failure to write or read the saved container map.
#[derive(Debug)]
pub enum MapError {
    Encode,
    Decode,
}

/// Which heap file holds each container.
pub struct ContainerMap {
    paths: BTreeMap<u16, String>,
}

impl ContainerMap {
    /// Container id to heap-file path.
    pub closed spec fn view(self) -> Map<u16, Seq<char>> {
        paths_view(self.paths@)
    }

    pub fn new() -> (m: ContainerMap)
        ensures
            m.view() == Map::<u16, Seq<char>>::empty(),
    {
        let m = ContainerMap { paths: BTreeMap::new() };
        assert(m.view() =~= Map::<u16, Seq<char>>::empty());
        m
    }

    /// Records that container `id` lives in the file at `path`.
    pub fn register(&mut self, id: u16, path: String)
        ensures
            final(self).view() == old(self).view().insert(id, path@),
    {
        self.paths.insert(id, path);
        assert(self.view() =~= old(self).view().insert(id, path@));
    }

    /// Forgets container `id`; returns its path if it was known.
    pub fn unregister(&mut self, id: u16) -> (r: Option<String>)
        ensures
            final(self).view() == old(self).view().remove(id),
            r matches Some(p) ==> old(self).view().contains_key(id) && p@ == old(self).view()[id],
            r is None ==> !old(self).view().contains_key(id),
    {
        let r = self.paths.remove(&id);
        assert(self.view() =~= old(self).view().remove(id));
        r
    }

    /// The path of container `id`, if known.
    pub fn path_of(&self, id: u16) -> (r: Option<String>)
        ensures
            r matches Some(p) ==> self.view().contains_key(id) && p@ == self.view()[id],
            r is None ==> !self.view().contains_key(id),
    {
        match self.paths.get(&id) {
            Some(p) => Some(p.clone()),
            None => None,
        }
    }

    /// Forgets every container.
    pub fn clear(&mut self)
        ensures
            final(self).view() == Map::<u16, Seq<char>>::empty(),
    {
        self.paths.clear();
        assert(self.view() =~= Map::<u16, Seq<char>>::empty());
    }

    /// The saved form of the map: a JSON object from decimal container id to path.
    pub fn to_json(&self) -> (r: Result<String, MapError>)
        ensures
            r is Ok,
            r matches Ok(t) ==> t@ == json_of_paths(self.view()),
    {
        match paths_to_json(&self.paths) {
            Ok(t) => Ok(t),
            Err(_) => Err(MapError::Encode),
        }
    }

    /// Reads a map back from its saved form.
    pub fn from_json(text: &str) -> (r: Result<ContainerMap, MapError>)
        ensures
            r matches Ok(m) ==> paths_of_json(text@) == Some(m.view()),
            r is Err <==> paths_of_json(text@) is None,
            restore_outcome(text@, r),
    {
        match paths_from_json(text) {
            Ok(paths) => {
                Ok(ContainerMap { paths })
            },
            Err(_) => Err(MapError::Decode),
        }
    }
}

/// What `from_json` promises: the text of any map reads back as that map.
pub open spec fn restore_outcome(text: Seq<char>, r: Result<ContainerMap, MapError>) -> bool {
    forall|v: Map<u16, Seq<char>>|
        v.dom().finite() && text == #[trigger] json_of_paths(v) ==> (r matches Ok(m) && m.view() == v)
}

/// Saving a container map and reading the saved text back restores a map with
/// the same path for every container id.
pub proof fn law_saved_map_restores(m: ContainerMap, text: Seq<char>, r: Result<ContainerMap, MapError>)
    requires
        text == json_of_paths(m.view()),
        restore_outcome(text, r),
    ensures
        r matches Ok(m2) && m2.view() == m.view(),
{
    assert(m.view().dom() =~= m.paths@.dom());
}

} // verus!
