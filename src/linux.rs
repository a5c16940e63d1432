//! Gateway discovery from a routing table and the interface address list.

pub mod route_parser;

use vstd::prelude::*;

use crate::addr::{GatewayPair, Ipv4};
use crate::error::Error;
use route_parser::{parse, table_routes, views, Route, RouteView};

verus! {

/// One entry of the host's interface list: the interface's name and, where
/// the entry's address is an IPv4 one, that address.
pub struct InterfaceEntry {
    pub name: String,
    pub ipv4: Option<Ipv4>,
}

/// An interface name with one of its IPv4 addresses.
pub struct InterfaceAddress {
    pub name: String,
    pub address: Ipv4,
}

impl View for InterfaceAddress {
    type V = (Seq<char>, Ipv4);

    open spec fn view(&self) -> (Seq<char>, Ipv4) {
        (self.name@, self.address)
    }
}

/// The IPv4 entries of `entries`, in order; the others are left out.
pub open spec fn ipv4_entries(entries: Seq<InterfaceEntry>) -> Seq<(Seq<char>, Ipv4)>
    decreases entries.len(),
{
    if entries.len() == 0 {
        Seq::empty()
    } else {
        let init = ipv4_entries(entries.drop_last());
        match entries.last().ipv4 {
            Some(a) => init.push((entries.last().name@, a)),
            None => init,
        }
    }
}

/// Keeps the IPv4 entries of the interface list, in order.
pub fn ipv4_interfaces(entries: &Vec<InterfaceEntry>) -> (r: Vec<InterfaceAddress>)
    ensures
        r@.map_values(|i: InterfaceAddress| i@) == ipv4_entries(entries@),
{
    let mut r: Vec<InterfaceAddress> = Vec::new();
    let mut i: usize = 0;
    while i < entries.len()
        invariant
            i <= entries@.len(),
            r@.map_values(|x: InterfaceAddress| x@) == ipv4_entries(entries@.subrange(0, i as int)),
        decreases entries.len() - i,
    {
        let ghost before = r@.map_values(|x: InterfaceAddress| x@);
        proof {
            assert(entries@.subrange(0, i + 1).drop_last() =~= entries@.subrange(0, i as int));
        }
        if let Some(a) = entries[i].ipv4 {
            let name = entries[i].name.clone();
            r.push(InterfaceAddress { name, address: a });
            proof {
                assert(r@.map_values(|x: InterfaceAddress| x@) =~= before.push(
                    (entries@[i as int].name@, a),
                ));
            }
        }
        i = i + 1;
    }
    assert(entries@.subrange(0, entries@.len() as int) =~= entries@);
    r
}

/// The route is up, goes through a gateway, and leaves by the interface
/// `name`.
pub open spec fn serves(r: RouteView, name: Seq<char>) -> bool {
    r.iface == name && r.flags.up && r.flags.gateway
}

/// The pairs of `addr` with the gateway of each route of `routes` that
/// serves `name`, in route order.
pub open spec fn pairs_for(routes: Seq<RouteView>, name: Seq<char>, addr: Ipv4) -> Seq<
    GatewayPair,
>
    decreases routes.len(),
{
    if routes.len() == 0 {
        Seq::empty()
    } else {
        let init = pairs_for(routes.drop_last(), name, addr);
        if serves(routes.last(), name) {
            init.push((addr, routes.last().gateway))
        } else {
            init
        }
    }
}

/// The pairs of every interface address, in interface order, each followed
/// by the next.
pub open spec fn matched_pairs(routes: Seq<RouteView>, ifaces: Seq<(Seq<char>, Ipv4)>) -> Seq<
    GatewayPair,
>
    decreases ifaces.len(),
{
    if ifaces.len() == 0 {
        Seq::empty()
    } else {
        matched_pairs(routes, ifaces.drop_last()) + pairs_for(
            routes,
            ifaces.last().0,
            ifaces.last().1,
        )
    }
}

/// Pairs each interface address with the gateway of every up route through
/// a gateway that leaves by that interface: interfaces in order, and for
/// each the routes in order. The same pair may come more than once.
pub fn match_routes(routes: &Vec<Route>, ifaces: &Vec<InterfaceAddress>) -> (r: Vec<GatewayPair>)
    ensures
        r@ == matched_pairs(views(routes@), ifaces@.map_values(|i: InterfaceAddress| i@)),
{
    let ghost rs = views(routes@);
    let ghost is = ifaces@.map_values(|i: InterfaceAddress| i@);
    let mut out: Vec<GatewayPair> = Vec::new();
    let mut i: usize = 0;
    while i < ifaces.len()
        invariant
            i <= ifaces@.len(),
            rs == views(routes@),
            is == ifaces@.map_values(|i: InterfaceAddress| i@),
            out@ == matched_pairs(rs, is.subrange(0, i as int)),
        decreases ifaces.len() - i,
    {
        let iface = &ifaces[i];
        let ghost done = out@;
        let mut j: usize = 0;
        while j < routes.len()
            invariant
                i < ifaces@.len(),
                j <= routes@.len(),
                rs == views(routes@),
                is == ifaces@.map_values(|i: InterfaceAddress| i@),
                *iface == ifaces@[i as int],
                out@ == done + pairs_for(rs.subrange(0, j as int), iface.name@, iface.address),
            decreases routes.len() - j,
        {
            let route = &routes[j];
            proof {
                assert(rs.subrange(0, j + 1).drop_last() =~= rs.subrange(0, j as int));
                assert(rs.subrange(0, j + 1).last() == route@);
            }
            if route.iface == iface.name && route.flags.up && route.flags.gateway {
                out.push((iface.address, route.gateway));
                proof {
                    assert(out@ =~= done + pairs_for(
                        rs.subrange(0, j + 1),
                        iface.name@,
                        iface.address,
                    ));
                }
            }
            j = j + 1;
        }
        proof {
            assert(rs.subrange(0, routes@.len() as int) =~= rs);
            assert(is.subrange(0, i + 1).drop_last() =~= is.subrange(0, i as int));
            assert(is.subrange(0, i + 1).last() == (iface.name@, iface.address));
        }
        i = i + 1;
    }
    assert(is.subrange(0, ifaces@.len() as int) =~= is);
    out
}

/// The gateway pairs of a host, from the output of its routing-table
/// listing and its interface list: the routing table is parsed, the IPv4
/// entries of the interface list kept, and the two matched. A table that
/// does not parse gives its failure.
pub fn retrieve(route_output: &[u8], entries: &Vec<InterfaceEntry>) -> (r: Result<
    Vec<GatewayPair>,
    Error,
>)
    ensures
        match table_routes(route_output@) {
            Ok(rs) => r is Ok && r->Ok_0@ == matched_pairs(rs, ipv4_entries(entries@)),
            Err(e) => r == Err::<Vec<GatewayPair>, Error>(e),
        },
{
    let routes = match parse(route_output) {
        Ok(routes) => routes,
        Err(e) => return Err(e),
    };
    let ifaces = ipv4_interfaces(entries);
    Ok(match_routes(&routes, &ifaces))
}

proof fn lemma_pairs_for_from_serving(routes: Seq<RouteView>, name: Seq<char>, addr: Ipv4, k: int)
    requires
        0 <= k < pairs_for(routes, name, addr).len(),
    ensures
        exists|j: int|
            0 <= j < routes.len() && serves(#[trigger] routes[j], name) && pairs_for(
                routes,
                name,
                addr,
            )[k] == (addr, routes[j].gateway),
    decreases routes.len(),
{
    let init = routes.drop_last();
    if k < pairs_for(init, name, addr).len() {
        lemma_pairs_for_from_serving(init, name, addr, k);
        let j = choose|j: int|
            0 <= j < init.len() && serves(#[trigger] init[j], name) && pairs_for(init, name, addr)[k]
                == (addr, init[j].gateway);
        assert(routes[j] == init[j]);
    } else {
        assert(routes[routes.len() - 1] == routes.last());
    }
}

/// Every pair that the matcher emits pairs the address of some interface
/// with the gateway of some route that leaves by that interface and is both
/// up and through a gateway: a route without the up or the gateway flag
/// never contributes a pair, whatever its interface.
pub proof fn lemma_pairs_only_from_up_gateway_routes(
    routes: Seq<RouteView>,
    ifaces: Seq<(Seq<char>, Ipv4)>,
    k: int,
)
    requires
        0 <= k < matched_pairs(routes, ifaces).len(),
    ensures
        exists|i: int, j: int|
            0 <= i < ifaces.len() && 0 <= j < routes.len() && #[trigger] routes[j].flags.up
                && routes[j].flags.gateway && routes[j].iface == #[trigger] ifaces[i].0
                && matched_pairs(routes, ifaces)[k] == (ifaces[i].1, routes[j].gateway),
    decreases ifaces.len(),
{
    let init = ifaces.drop_last();
    let last = ifaces.last();
    let n = matched_pairs(routes, init).len();
    if k < n {
        lemma_pairs_only_from_up_gateway_routes(routes, init, k);
        let (i, j) = choose|i: int, j: int|
            0 <= i < init.len() && 0 <= j < routes.len() && #[trigger] routes[j].flags.up
                && routes[j].flags.gateway && routes[j].iface == #[trigger] init[i].0
                && matched_pairs(routes, init)[k] == (init[i].1, routes[j].gateway);
        assert(ifaces[i] == init[i]);
    } else {
        lemma_pairs_for_from_serving(routes, last.0, last.1, k - n);
        let j = choose|j: int|
            0 <= j < routes.len() && serves(#[trigger] routes[j], last.0) && pairs_for(
                routes,
                last.0,
                last.1,
            )[k - n] == (last.1, routes[j].gateway);
        assert(ifaces[ifaces.len() - 1] == last);
        assert(routes[j].flags.up);
        assert(ifaces[ifaces.len() - 1].0 == last.0);
    }
}

} // verus!
