//! The machine's private network, as the agent brings it up.
//!
//! The layouts are those of the kernel's ioctl interface on a little-endian
//! 64-bit guest.
use crate::proto;
use crate::shim;
use crate::text;
use vstd::prelude::*;

verus! {

/// The guest's address. Fixed for every machine: each one sits behind its
/// own proxy on the host, so addresses never collide.
pub const GUEST_ADDRESS: [u8; 4] = [192, 168, 127, 2];

pub const GATEWAY_ADDRESS: [u8; 4] = [192, 168, 127, 1];

pub const NETMASK: [u8; 4] = [255, 255, 255, 0];

/// The address family of IPv4.
pub const AF_INET: u8 = 2;

/// The flags of a route that is up and leads through a gateway.
pub const ROUTE_FLAGS: u8 = 3;

pub open spec fn zeros(n: nat) -> Seq<u8> {
    Seq::new(n, |i: int| 0u8)
}

/// A socket address: the family, port zero, and an IPv4 address.
pub open spec fn inet(addr: Seq<u8>) -> Seq<u8> {
    seq![AF_INET, 0u8, 0u8, 0u8] + addr + zeros(8)
}

fn push_zeros(out: &mut Vec<u8>, n: usize)
    ensures
        final(out)@ == old(out)@ + zeros(n as nat),
{
    for i in 0..n
        invariant
            out@ == old(out)@ + zeros(i as nat),
    {
        out.push(0);
        assert(out@ =~= old(out)@ + zeros(i as nat + 1));
    }
    assert(out@ =~= old(out)@ + zeros(n as nat));
}

/// The socket address of an IPv4 address.
pub fn sockaddr(addr: [u8; 4]) -> (r: Vec<u8>)
    ensures
        r@ == inet(addr@),
        r@.len() == 16,
{
    let mut out: Vec<u8> = vec![AF_INET, 0, 0, 0];
    assert(out@ =~= seq![AF_INET, 0u8, 0u8, 0u8]);
    out.extend_from_slice(&addr);
    push_zeros(&mut out, 8);
    out
}

/// An interface request: the name in sixteen bytes, the data in twenty-four.
pub open spec fn interface_request(name: Seq<char>, data: Seq<u8>) -> Seq<u8> {
    let wire = proto::wire(name);
    wire + zeros((16 - wire.len()) as nat) + data + zeros((24 - data.len()) as nat)
}

/// A request about the interface that carries the data.
pub fn ifreq(name: &str, data: &[u8]) -> (r: Vec<u8>)
    requires
        proto::wire(name@).len() <= 16,
        data@.len() <= 24,
    ensures
        r@ == interface_request(name@, data@),
        r@.len() == 40,
{
    let wire = name.as_bytes();
    let mut out: Vec<u8> = Vec::new();
    out.extend_from_slice(wire);
    push_zeros(&mut out, 16 - wire.len());
    out.extend_from_slice(data);
    push_zeros(&mut out, 24 - data.len());
    assert(out@ =~= interface_request(name@, data@));
    out
}

/// The entry of a default route through the gateway: destination, gateway
/// and mask, then the flags.
pub open spec fn default_route(gateway: Seq<u8>) -> Seq<u8> {
    zeros(8) + inet(zeros(4)) + inet(gateway) + inet(zeros(4)) + seq![ROUTE_FLAGS, 0u8] + zeros(62)
}

pub fn route_entry(gateway: [u8; 4]) -> (r: Vec<u8>)
    ensures
        r@ == default_route(gateway@),
        r@.len() == 120,
{
    let any: [u8; 4] = [0, 0, 0, 0];
    assert(any@ =~= zeros(4));
    let mut out: Vec<u8> = Vec::new();
    push_zeros(&mut out, 8);
    assert(out@ =~= zeros(8));
    out.extend_from_slice(&sockaddr(any));
    out.extend_from_slice(&sockaddr(gateway));
    out.extend_from_slice(&sockaddr(any));
    out.push(ROUTE_FLAGS);
    out.push(0);
    push_zeros(&mut out, 62);
    assert(out@ =~= default_route(gateway@));
    out
}

/// The flags of an interface that is up and running.
pub const UP_AND_RUNNING: u16 = 0x41;

/// The interface's flags with those two raised.
pub fn raise_flags(flags: u16) -> (r: u16)
    ensures
        r == flags | UP_AND_RUNNING,
{
    flags | UP_AND_RUNNING
}

/// Raising the flags sets the two and keeps every other as it was.
pub proof fn raised_flags_keep_others(flags: u16)
    ensures
        (flags | UP_AND_RUNNING) & 0x41 == 0x41,
        (flags | UP_AND_RUNNING) & 0xffbe == flags & 0xffbe,
{
    assert((flags | 0x41) & 0x41 == 0x41) by (bit_vector);
    assert((flags | 0x41) & 0xffbe == flags & 0xffbe) by (bit_vector);
}

/// An address in dotted form.
pub open spec fn dotted(addr: Seq<u8>) -> Seq<char> {
    text::decimal(addr[0] as nat) + "."@ + text::decimal(addr[1] as nat) + "."@ + text::decimal(
        addr[2] as nat,
    ) + "."@ + text::decimal(addr[3] as nat)
}

/// The resolver's configuration: the gateway answers for names.
pub fn resolver_config(server: [u8; 4]) -> (r: String)
    ensures
        r@ == "nameserver "@ + dotted(server@) + "\n"@,
{
    let mut a = text::format_decimal(server[0] as u64);
    a.append(".");
    a.append(text::format_decimal(server[1] as u64).as_str());
    a.append(".");
    a.append(text::format_decimal(server[2] as u64).as_str());
    a.append(".");
    a.append(text::format_decimal(server[3] as u64).as_str());
    text::concat3("nameserver ", a.as_str(), "\n")
}

/// The host forwards to the address that the agent sets in the guest.
pub proof fn forwards_reach_the_guest()
    ensures
        dotted(GUEST_ADDRESS@) == shim::GUEST_IP@,
{
    reveal_strlit("192.168.127.2");
    reveal_strlit(".");
    reveal_with_fuel(text::decimal, 4);
    assert(dotted(GUEST_ADDRESS@) =~= shim::GUEST_IP@);
}

/// How often the agent tries to set the address; the interface can appear
/// slightly after the agent starts.
pub const ADDRESS_TRIES: u32 = 300;

/// Something to do to bring the network up.
#[derive(Clone, Copy, PartialEq, Eq, Structural)]
pub enum NetStep {
    /// Open a socket for the requests.
    OpenSocket,
    LoopbackUp,
    /// Set the guest's address, after this many tries that failed.
    SetAddress(u32),
    SetNetmask,
    InterfaceUp,
    AddRoute,
    /// Close the socket and write the resolver's configuration.
    WriteResolver,
    /// Give up: the interface did not appear.
    NoInterface,
    /// Nothing is left to do.
    Done,
}

/// What comes after a step: without a socket or an interface nothing more
/// is done, and every other failure is passed over.
pub open spec fn after(step: NetStep, succeeded: bool) -> NetStep {
    match step {
        NetStep::OpenSocket => if succeeded {
            NetStep::LoopbackUp
        } else {
            NetStep::Done
        },
        NetStep::LoopbackUp => NetStep::SetAddress(0),
        NetStep::SetAddress(failed) => if succeeded {
            NetStep::SetNetmask
        } else if failed + 1 >= ADDRESS_TRIES {
            NetStep::NoInterface
        } else {
            NetStep::SetAddress((failed + 1) as u32)
        },
        NetStep::SetNetmask => NetStep::InterfaceUp,
        NetStep::InterfaceUp => NetStep::AddRoute,
        NetStep::AddRoute => NetStep::WriteResolver,
        NetStep::WriteResolver => NetStep::Done,
        NetStep::NoInterface => NetStep::Done,
        NetStep::Done => NetStep::Done,
    }
}

/// The next step, given whether the last one succeeded.
pub fn next_step(step: NetStep, succeeded: bool) -> (r: NetStep)
    ensures
        r == after(step, succeeded),
{
    match step {
        NetStep::OpenSocket => if succeeded {
            NetStep::LoopbackUp
        } else {
            NetStep::Done
        },
        NetStep::LoopbackUp => NetStep::SetAddress(0),
        NetStep::SetAddress(failed) => if succeeded {
            NetStep::SetNetmask
        } else if failed >= ADDRESS_TRIES - 1 {
            NetStep::NoInterface
        } else {
            NetStep::SetAddress(failed + 1)
        },
        NetStep::SetNetmask => NetStep::InterfaceUp,
        NetStep::InterfaceUp => NetStep::AddRoute,
        NetStep::AddRoute => NetStep::WriteResolver,
        NetStep::WriteResolver => NetStep::Done,
        NetStep::NoInterface => NetStep::Done,
        NetStep::Done => NetStep::Done,
    }
}

/// How many steps are left at most.
pub open spec fn steps_left(step: NetStep) -> int {
    match step {
        NetStep::OpenSocket => ADDRESS_TRIES + 7,
        NetStep::LoopbackUp => ADDRESS_TRIES + 6,
        NetStep::SetAddress(failed) => if failed < ADDRESS_TRIES {
            ADDRESS_TRIES - failed + 5
        } else {
            5
        },
        NetStep::SetNetmask => 4,
        NetStep::InterfaceUp => 3,
        NetStep::AddRoute => 2,
        NetStep::WriteResolver => 1,
        NetStep::NoInterface => 1,
        NetStep::Done => 0,
    }
}

/// Bringing the network up comes to an end, whatever fails on the way.
pub proof fn network_setup_ends(step: NetStep, succeeded: bool)
    requires
        step != NetStep::Done,
    ensures
        0 <= steps_left(after(step, succeeded)) < steps_left(step),
{
}

/// What is logged where a step failed: nothing for a try that is repeated.
pub open spec fn complaint(step: NetStep, error: Seq<char>) -> Option<Seq<char>> {
    match step {
        NetStep::OpenSocket => Some("moo-agent: net: no AF_INET sockets: "@ + error),
        NetStep::LoopbackUp => Some("moo-agent: net: lo: "@ + error),
        NetStep::SetNetmask => Some("moo-agent: net: eth0 netmask: "@ + error),
        NetStep::InterfaceUp => Some("moo-agent: net: eth0: "@ + error),
        NetStep::AddRoute => Some("moo-agent: net: default route: "@ + error),
        NetStep::WriteResolver => Some("moo-agent: net: resolv.conf: "@ + error),
        NetStep::NoInterface => Some(
            "moo-agent: net: eth0 did not appear; machine has no network"@,
        ),
        NetStep::SetAddress(_) => None,
        NetStep::Done => None,
    }
}

/// The line to log about a step that failed with the error.
pub fn complain(step: NetStep, error: &str) -> (r: Option<String>)
    ensures
        text::opt_text(r) == complaint(step, error@),
{
    let start = match step {
        NetStep::OpenSocket => "moo-agent: net: no AF_INET sockets: ",
        NetStep::LoopbackUp => "moo-agent: net: lo: ",
        NetStep::SetNetmask => "moo-agent: net: eth0 netmask: ",
        NetStep::InterfaceUp => "moo-agent: net: eth0: ",
        NetStep::AddRoute => "moo-agent: net: default route: ",
        NetStep::WriteResolver => "moo-agent: net: resolv.conf: ",
        NetStep::NoInterface => {
            return Some(
                "moo-agent: net: eth0 did not appear; machine has no network".to_owned(),
            );
        },
        NetStep::SetAddress(_) => return None,
        NetStep::Done => return None,
    };
    let mut s = start.to_owned();
    s.append(error);
    Some(s)
}

} // verus!
