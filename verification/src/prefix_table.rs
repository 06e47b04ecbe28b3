//! The table from networks to the indices of the rules that watch them.

use crate::net::{IpAddr, Prefix};
use ip_network_table::IpNetworkTable;
use vstd::prelude::*;

verus! {

/// `ip_network_table::IpNetworkTable`, a map from networks to values.
#[verifier::external_type_specification]
#[verifier::external_body]
#[verifier::reject_recursive_types(T)]
pub struct ExIpNetworkTable<T>(ip_network_table::IpNetworkTable<T>);

/// What a table holds: for each network the indices that stand with it.
pub uninterp spec fn table_map(table: IpNetworkTable<Vec<usize>>) -> Map<Prefix, Seq<usize>>;

/// The entries of the networks with fewer than `end` leading bits that hold `ip`, the shortest
/// network first: for each length the entry of `ip` cut to that length.
pub open spec fn entries_below(
    map: Map<Prefix, Seq<usize>>,
    ip: IpAddr,
    end: nat,
) -> Seq<Seq<usize>>
    decreases end,
{
    if end == 0 {
        Seq::empty()
    } else {
        let shorter = entries_below(map, ip, (end - 1) as nat);
        let network = ip.cut((end - 1) as nat);
        if map.contains_key(network) {
            shorter.push(map[network])
        } else {
            shorter
        }
    }
}

/// The entries of all networks that hold `ip`, the shortest network first.
pub open spec fn entries_for(map: Map<Prefix, Seq<usize>>, ip: IpAddr) -> Seq<Seq<usize>> {
    entries_below(map, ip, ip.width() + 1)
}

/// An empty table, by `IpNetworkTable::new`.
#[verifier::external_body]
pub(crate) fn new_table() -> (table: IpNetworkTable<Vec<usize>>)
    ensures
        table_map(table) == (Map::<Prefix, Seq<usize>>::empty()),
{
    IpNetworkTable::new()
}

/// The entry of a network, to be changed, by `IpNetworkTable::exact_match_mut`: what is written
/// to it is what the table then holds for that network, and no other entry changes.
#[verifier::external_body]
pub(crate) fn entry_mut<'a>(
    table: &'a mut IpNetworkTable<Vec<usize>>,
    network: &Prefix,
) -> (entry: Option<&'a mut Vec<usize>>)
    requires
        network.valid(),
        network.is_network(),
    ensures
        match entry {
            Some(indices) => {
                &&& table_map(*old(table)).contains_key(*network)
                &&& indices@ == table_map(*old(table))[*network]
                &&& table_map(*final(table)) == table_map(*old(table)).insert(
                    *network,
                    final(indices)@,
                )
            },
            None => {
                &&& !table_map(*old(table)).contains_key(*network)
                &&& table_map(*final(table)) == table_map(*old(table))
            },
        },
{
    let key = match network.addr {
        IpAddr::V4(n) => ip_network::IpNetwork::new(n.to_be_bytes(), network.len),
        IpAddr::V6(n) => ip_network::IpNetwork::new(n.to_be_bytes(), network.len),
    };
    table.exact_match_mut(key.unwrap())
}

/// Sets the entry of a network, by `IpNetworkTable::insert`.
#[verifier::external_body]
pub(crate) fn insert_entry(
    table: &mut IpNetworkTable<Vec<usize>>,
    network: &Prefix,
    indices: Vec<usize>,
)
    requires
        network.valid(),
        network.is_network(),
    ensures
        table_map(*final(table)) == table_map(*old(table)).insert(*network, indices@),
{
    let key = match network.addr {
        IpAddr::V4(n) => ip_network::IpNetwork::new(n.to_be_bytes(), network.len),
        IpAddr::V6(n) => ip_network::IpNetwork::new(n.to_be_bytes(), network.len),
    };
    table.insert(key.unwrap(), indices);
}

/// The entries of all networks that hold `ip`, by `IpNetworkTable::matches`, which walks down the
/// table from the shortest network to the longest.
#[verifier::external_body]
pub(crate) fn matching_entries(table: &IpNetworkTable<Vec<usize>>, ip: &IpAddr) -> (entries: Vec<
    Vec<usize>,
>)
    ensures
        entries@.map_values(|v: Vec<usize>| v@) == entries_for(table_map(*table), *ip),
{
    match *ip {
        IpAddr::V4(n) => table.matches(n.to_be_bytes()).map(|(_, v)| v.clone()).collect(),
        IpAddr::V6(n) => table.matches(n.to_be_bytes()).map(|(_, v)| v.clone()).collect(),
    }
}

} // verus!
