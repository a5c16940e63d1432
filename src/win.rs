//! Gateway discovery from the adapter records of an adapter-enumeration
//! call, copied out of the buffer the call filled.

use vstd::prelude::*;

use crate::addr::{GatewayPair, Ipv4};

verus! {

/// The address family of IPv4 socket addresses.
pub const AF_INET: u16 = 2;

/// The size in bytes of an IPv4 socket address.
pub const SOCKADDR_IN_SIZE: i32 = 16;

/// The operational status of an adapter that can pass traffic.
pub const IF_OPER_STATUS_UP: u32 = 1;

/// The enumeration call succeeded and filled the buffer.
pub const NO_ERROR: u32 = 0;

/// The buffer given to the enumeration call was too small.
pub const ERROR_BUFFER_OVERFLOW: u32 = 111;

/// The size of the first buffer, and the step by which it grows.
pub const CHUNK: u32 = 15000;

/// One socket-address entry of an adapter's address list: the family and
/// length the entry declares, and the four bytes of its IPv4 address in
/// network order (meaningful only for an IPv4 entry).
#[derive(Clone, Copy, Debug)]
pub struct SocketAddress {
    pub family: u16,
    pub length: i32,
    pub sin_addr: [u8; 4],
}

/// What an adapter record holds: its operational status, and its unicast
/// and gateway address lists in list order. An entry without an address is
/// `None`.
pub struct AdapterRecord {
    pub oper_status: u32,
    pub unicast: Vec<Option<SocketAddress>>,
    pub gateways: Vec<Option<SocketAddress>>,
}

/// The IPv4 address an entry holds: only an entry that declares the IPv4
/// family and the size of an IPv4 socket address holds one.
pub open spec fn ipv4_of(e: Option<SocketAddress>) -> Option<Ipv4> {
    match e {
        Some(s) => if s.family == AF_INET && s.length == SOCKADDR_IN_SIZE {
            Some(Ipv4 { a: s.sin_addr@[0], b: s.sin_addr@[1], c: s.sin_addr@[2], d: s.sin_addr@[3] })
        } else {
            None
        },
        None => None,
    }
}

/// The IPv4 addresses of an address list, in order.
pub open spec fn extracted(es: Seq<Option<SocketAddress>>) -> Seq<Ipv4>
    decreases es.len(),
{
    if es.len() == 0 {
        Seq::empty()
    } else {
        let init = extracted(es.drop_last());
        match ipv4_of(es.last()) {
            Some(a) => init.push(a),
            None => init,
        }
    }
}

/// Every pair of an address of `us` with an address of `gs`: `us` in the
/// outer order, `gs` in the inner one.
pub open spec fn cross(us: Seq<Ipv4>, gs: Seq<Ipv4>) -> Seq<GatewayPair>
    decreases us.len(),
{
    if us.len() == 0 {
        Seq::empty()
    } else {
        cross(us.drop_last(), gs) + gs.map_values(|g: Ipv4| (us.last(), g))
    }
}

/// The pairs an adapter contributes: none unless it is up.
pub open spec fn adapter_pairs(a: AdapterRecord) -> Seq<GatewayPair> {
    if a.oper_status == IF_OPER_STATUS_UP {
        cross(extracted(a.unicast@), extracted(a.gateways@))
    } else {
        Seq::empty()
    }
}

/// The pairs of all adapters, in adapter order.
pub open spec fn all_pairs(adapters: Seq<AdapterRecord>) -> Seq<GatewayPair>
    decreases adapters.len(),
{
    if adapters.len() == 0 {
        Seq::empty()
    } else {
        all_pairs(adapters.drop_last()) + adapter_pairs(adapters.last())
    }
}

/// Reads the IPv4 addresses of an address list, in order, skipping every
/// entry that is not a well-formed IPv4 socket address.
pub fn extract_ipv4(es: &Vec<Option<SocketAddress>>) -> (r: Vec<Ipv4>)
    ensures
        r@ == extracted(es@),
{
    let mut r: Vec<Ipv4> = Vec::new();
    let mut i: usize = 0;
    while i < es.len()
        invariant
            i <= es@.len(),
            r@ == extracted(es@.subrange(0, i as int)),
        decreases es.len() - i,
    {
        proof {
            assert(es@.subrange(0, i + 1).drop_last() =~= es@.subrange(0, i as int));
        }
        if let Some(s) = es[i] {
            if s.family == AF_INET && s.length == SOCKADDR_IN_SIZE {
                r.push(Ipv4::from_octets(s.sin_addr));
            }
        }
        i = i + 1;
    }
    assert(es@.subrange(0, es@.len() as int) =~= es@);
    r
}

/// Pairs every unicast address with every gateway address: unicast
/// addresses in the outer order, gateways in the inner one.
pub fn pair_addresses(unicast: &Vec<Ipv4>, gateways: &Vec<Ipv4>) -> (r: Vec<GatewayPair>)
    ensures
        r@ == cross(unicast@, gateways@),
{
    let mut r: Vec<GatewayPair> = Vec::new();
    let mut i: usize = 0;
    while i < unicast.len()
        invariant
            i <= unicast@.len(),
            r@ == cross(unicast@.subrange(0, i as int), gateways@),
        decreases unicast.len() - i,
    {
        let u = unicast[i];
        let ghost done = r@;
        let mut j: usize = 0;
        while j < gateways.len()
            invariant
                i < unicast@.len(),
                u == unicast@[i as int],
                j <= gateways@.len(),
                r@ == done + gateways@.subrange(0, j as int).map_values(|g: Ipv4| (u, g)),
            decreases gateways.len() - j,
        {
            r.push((u, gateways[j]));
            proof {
                assert(gateways@.subrange(0, j + 1).map_values(|g: Ipv4| (u, g)) =~= gateways@.subrange(
                    0,
                    j as int,
                ).map_values(|g: Ipv4| (u, g)).push((u, gateways@[j as int])));
                assert(r@ =~= done + gateways@.subrange(0, j + 1).map_values(|g: Ipv4| (u, g)));
            }
            j = j + 1;
        }
        proof {
            assert(gateways@.subrange(0, gateways@.len() as int) =~= gateways@);
            assert(unicast@.subrange(0, i + 1).drop_last() =~= unicast@.subrange(0, i as int));
        }
        i = i + 1;
    }
    assert(unicast@.subrange(0, unicast@.len() as int) =~= unicast@);
    r
}

/// The pairs of the adapters that are up, adapter by adapter, each as
/// `pair_addresses` gives them.
pub fn gateway_pairs(adapters: &Vec<AdapterRecord>) -> (r: Vec<GatewayPair>)
    ensures
        r@ == all_pairs(adapters@),
{
    let mut r: Vec<GatewayPair> = Vec::new();
    let mut i: usize = 0;
    while i < adapters.len()
        invariant
            i <= adapters@.len(),
            r@ == all_pairs(adapters@.subrange(0, i as int)),
        decreases adapters.len() - i,
    {
        let adapter = &adapters[i];
        proof {
            assert(adapters@.subrange(0, i + 1).drop_last() =~= adapters@.subrange(0, i as int));
        }
        if adapter.oper_status == IF_OPER_STATUS_UP {
            let unicast = extract_ipv4(&adapter.unicast);
            let gateways = extract_ipv4(&adapter.gateways);
            let mut pairs = pair_addresses(&unicast, &gateways);
            r.append(&mut pairs);
        } else {
            assert(r@ =~= r@ + adapter_pairs(adapters@[i as int]));
        }
        i = i + 1;
    }
    assert(adapters@.subrange(0, adapters@.len() as int) =~= adapters@);
    r
}

/// The gateway pairs of a host, from the result code of its last
/// adapter-enumeration call and the adapter records copied out of the
/// buffer that call filled. Only a successful call yields pairs; any other
/// result means the information is unavailable.
pub fn retrieve(result: u32, adapters: &Vec<AdapterRecord>) -> (r: Option<Vec<GatewayPair>>)
    ensures
        result == NO_ERROR ==> r is Some && r->0@ == all_pairs(adapters@),
        result != NO_ERROR ==> r is None,
{
    if result == NO_ERROR {
        Some(gateway_pairs(adapters))
    } else {
        None
    }
}

/// What to do after an adapter-enumeration call.
#[derive(Clone, Copy, Debug, PartialEq, Eq, Structural)]
pub enum Enumeration {
    /// Call again with a buffer of this many bytes.
    Retry(u32),
    /// The buffer holds the adapter list: walk it.
    Walk,
    /// The call failed for good.
    Unavailable,
}

/// Decides the next step after an enumeration call that was given a buffer
/// of `tried` bytes, returned `result`, and reported `reported` bytes as the
/// size it needs. A buffer that was too small is retried one step larger than
/// both the size tried and the size reported; a size that would not fit in
/// 32 bits gives up.
pub fn after_call(result: u32, tried: u32, reported: u32) -> (r: Enumeration)
    ensures
        result == NO_ERROR ==> r == Enumeration::Walk,
        result == ERROR_BUFFER_OVERFLOW ==> {
            let base = if tried >= reported { tried } else { reported };
            if base + CHUNK <= u32::MAX {
                r == Enumeration::Retry((base + CHUNK) as u32)
            } else {
                r == Enumeration::Unavailable
            }
        },
        result != NO_ERROR && result != ERROR_BUFFER_OVERFLOW ==> r == Enumeration::Unavailable,
        r matches Enumeration::Retry(size) ==> size > tried && size > reported,
{
    if result == NO_ERROR {
        Enumeration::Walk
    } else if result == ERROR_BUFFER_OVERFLOW {
        let base = if tried >= reported { tried } else { reported };
        match base.checked_add(CHUNK) {
            Some(size) => Enumeration::Retry(size),
            None => Enumeration::Unavailable,
        }
    } else {
        Enumeration::Unavailable
    }
}

/// The pairer emits exactly one pair for each unicast address and each
/// gateway address, in unicast-major order: the pair of the `i`th unicast
/// address with the `j`th gateway stands at `i * G + j`, where `G` is the
/// number of gateways.
pub proof fn lemma_cross_is_row_major(us: Seq<Ipv4>, gs: Seq<Ipv4>)
    ensures
        cross(us, gs).len() == us.len() * gs.len(),
        forall|i: int, j: int|
            0 <= i < us.len() && 0 <= j < gs.len() ==> #[trigger] cross(us, gs)[i * gs.len() + j]
                == (us[i], gs[j]),
    decreases us.len(),
{
    if us.len() > 0 {
        let init = us.drop_last();
        lemma_cross_is_row_major(init, gs);
        let g = gs.len() as int;
        let n = init.len() as int;
        assert(cross(us, gs).len() == n * g + g);
        assert(n * g + g == us.len() * g) by (nonlinear_arith)
            requires
                n == us.len() - 1,
        ;
        assert forall|i: int, j: int| 0 <= i < us.len() && 0 <= j < gs.len() implies #[trigger] cross(
            us,
            gs,
        )[i * gs.len() + j] == (us[i], gs[j]) by {
            if i < n {
                assert(i * g + j < n * g) by (nonlinear_arith)
                    requires
                        0 <= i < n,
                        0 <= j < g,
                ;
                assert(us[i] == init[i]);
            } else {
                assert(i * g == n * g);
            }
        }
    }
}

/// An adapter that is not up contributes no pair: leaving it out of the
/// list changes nothing.
pub proof fn lemma_down_adapter_contributes_nothing(adapters: Seq<AdapterRecord>, k: int)
    requires
        0 <= k < adapters.len(),
        adapters[k].oper_status != IF_OPER_STATUS_UP,
    ensures
        all_pairs(adapters) == all_pairs(adapters.remove(k)),
    decreases adapters.len(),
{
    if k == adapters.len() - 1 {
        assert(adapters.remove(k) =~= adapters.drop_last());
        assert(all_pairs(adapters) =~= all_pairs(adapters.drop_last()));
    } else {
        let init = adapters.drop_last();
        lemma_down_adapter_contributes_nothing(init, k);
        assert(adapters.remove(k).drop_last() =~= init.remove(k));
        assert(adapters.remove(k).last() == adapters.last());
    }
}

} // verus!
