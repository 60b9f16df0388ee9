//! The commands this client sends back to the server.
use vstd::prelude::*;

use crate::board::Resource;

verus! {

/// Build `structure` (`village`, `street` or `city`) at the node or edge
/// keyed `location`.
#[derive(Debug, PartialEq, Eq)]
pub struct BuildCommand {
    pub structure: String,
    pub location: String,
}

/// Offer resources of the type `from` for resources of the type `to`.
#[derive(Debug, PartialEq, Eq)]
pub struct TradeCommand {
    pub from: String,
    pub to: String,
}

/// Move the bandit to the tile keyed `location`.
#[derive(Debug, PartialEq, Eq)]
pub struct MoveBanditCommand {
    pub location: String,
}

/// Build commands as (structure, location) pairs.
pub open spec fn build_views(cs: Seq<BuildCommand>) -> Seq<(Seq<char>, Seq<char>)> {
    cs.map_values(|c: BuildCommand| (c.structure@, c.location@))
}

/// Trade commands as (from, to) pairs.
pub open spec fn trade_views(cs: Seq<TradeCommand>) -> Seq<(Seq<char>, Seq<char>)> {
    cs.map_values(|c: TradeCommand| (c.from@, c.to@))
}

/// Bandit commands as the keys of their tiles.
pub open spec fn bandit_views(cs: Seq<MoveBanditCommand>) -> Seq<Seq<char>> {
    cs.map_values(|c: MoveBanditCommand| c.location@)
}

/// Resources as (kind, amount) pairs.
pub open spec fn resource_views(rs: Seq<Resource>) -> Seq<(Seq<char>, usize)> {
    rs.map_values(|r: Resource| (r.kind@, r.value))
}

impl BuildCommand {
    /// A command that builds `structure` at `location`.
    pub fn new(structure: &str, location: &str) -> (r: BuildCommand)
        ensures
            r.structure@ == structure@,
            r.location@ == location@,
    {
        BuildCommand { structure: String::from_str(structure), location: String::from_str(location) }
    }
}

/// A copy of the resources `rs`, in the same order.
pub fn copy_resources(rs: &Vec<Resource>) -> (r: Vec<Resource>)
    ensures
        resource_views(r@) == resource_views(rs@),
{
    let mut r: Vec<Resource> = Vec::new();
    let mut i: usize = 0;
    while i < rs.len()
        invariant
            i <= rs@.len(),
            r@.len() == i,
            forall|j: int| 0 <= j < i ==> r@[j].kind@ == rs@[j].kind@ && r@[j].value == rs@[j].value,
        decreases rs@.len() - i,
    {
        r.push(Resource { kind: rs[i].kind.clone(), value: rs[i].value });
        i = i + 1;
    }
    assert(resource_views(r@) =~= resource_views(rs@));
    r
}

} // verus!
