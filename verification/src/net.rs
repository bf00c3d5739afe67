//! IPv4 addresses and subnets, as plain integers.
//!
//! An address is a `u32` holding the four octets most-significant first; a
//! subnet is an address together with a prefix length. The responder uses
//! these to pick, for each query, the local address topologically nearest
//! the requester.

use vstd::prelude::*;

verus! {

/// Packs four octets into a `u32` address, most significant octet first.
pub fn ipv4(a: u8, b: u8, c: u8, d: u8) -> (r: u32)
    ensures
        r == (a as u32) * 0x1000000 + (b as u32) * 0x10000 + (c as u32) * 0x100 + (d as u32),
{
    (a as u32) * 0x1000000 + (b as u32) * 0x10000 + (c as u32) * 0x100 + (d as u32)
}

/// One local IPv4 interface: its address and its subnet's prefix length.
#[derive(Clone, Copy, Debug, PartialEq, Eq, Structural)]
pub struct InterfaceBinding {
    pub addr: u32,
    pub prefix_len: u8,
}

/// A binding the responder keeps: a real subnet, which excludes the
/// all-zero and the all-ones netmask.
pub open spec fn wf_binding(b: InterfaceBinding) -> bool {
    1 <= b.prefix_len <= 31
}

/// Whether `ip` lies in the subnet of `addr` with `len` leading bits.
pub open spec fn spec_subnet_contains(addr: u32, len: u8, ip: u32) -> bool {
    addr >> ((32 - len) as u32) == ip >> ((32 - len) as u32)
}

/// Whether `ip` lies in the binding's subnet: the addresses agree on the
/// prefix bits.
pub fn subnet_contains(b: &InterfaceBinding, ip: u32) -> (r: bool)
    requires
        wf_binding(*b),
    ensures
        r == spec_subnet_contains(b.addr, b.prefix_len, ip),
{
    let sh: u32 = 32 - (b.prefix_len as u32);
    (b.addr >> sh) == (ip >> sh)
}

/// The netmask with `len` leading one bits.
pub open spec fn spec_mask_of(len: int) -> u32 {
    if len <= 0 {
        0u32
    } else if len >= 32 {
        0xFFFF_FFFFu32
    } else {
        0xFFFF_FFFFu32 << ((32 - len) as u32)
    }
}

/// The prefix length whose mask equals `mask`, searched from `l` upward;
/// `None` when the mask's one bits are not one contiguous leading run.
pub open spec fn spec_prefix_len_from(mask: u32, l: int) -> Option<u8>
    decreases 33 - l,
{
    if l < 0 || l > 32 {
        None
    } else if mask == spec_mask_of(l) {
        Some(l as u8)
    } else {
        spec_prefix_len_from(mask, l + 1)
    }
}

/// The prefix length of a contiguous netmask, or `None` for a
/// non-contiguous one.
pub open spec fn spec_prefix_len(mask: u32) -> Option<u8> {
    spec_prefix_len_from(mask, 0)
}

/// Recovers the prefix length from a netmask: the smallest `l` with
/// `spec_mask_of(l) == mask`, or `None` when no length fits.
pub fn prefix_len_from_mask(mask: u32) -> (r: Option<u8>)
    ensures
        r == spec_prefix_len(mask),
{
    let mut l: u8 = 0;
    while l <= 32
        invariant
            l <= 33,
            spec_prefix_len(mask) == spec_prefix_len_from(mask, l as int),
        decreases 33 - l,
    {
        let m: u32 = if l == 0 {
            0
        } else if l == 32 {
            0xFFFF_FFFF
        } else {
            0xFFFF_FFFFu32 << (32 - l as u32)
        };
        if mask == m {
            return Some(l);
        }
        l += 1;
    }
    None
}

/// The bindings kept from a list of raw interface addresses with their
/// netmasks: those whose mask is contiguous and neither all-zero nor
/// all-ones, in order.
pub open spec fn spec_bindings_from(ifs: Seq<(u32, u32)>, i: int) -> Seq<InterfaceBinding>
    decreases ifs.len() - i,
{
    if i < 0 || i >= ifs.len() {
        Seq::empty()
    } else {
        let rest = spec_bindings_from(ifs, i + 1);
        match spec_prefix_len(ifs[i].1) {
            Some(l) => if 1 <= l <= 31 {
                seq![InterfaceBinding { addr: ifs[i].0, prefix_len: l }] + rest
            } else {
                rest
            },
            None => rest,
        }
    }
}

/// Filters raw interface addresses down to usable bindings, keeping order.
/// An interface whose netmask is all-zero, all-ones, or not contiguous is
/// dropped silently.
pub fn bindings_of(ifs: &Vec<(u32, u32)>) -> (r: Vec<InterfaceBinding>)
    ensures
        r@ == spec_bindings_from(ifs@, 0),
        forall|k: int| 0 <= k < r@.len() ==> wf_binding(#[trigger] r@[k]),
{
    let mut out: Vec<InterfaceBinding> = Vec::new();
    let mut i: usize = 0;
    proof {
        lemma_bindings_wf(ifs@, 0);
    }
    while i < ifs.len()
        invariant
            i <= ifs@.len(),
            out@ + spec_bindings_from(ifs@, i as int) == spec_bindings_from(ifs@, 0),
        decreases ifs@.len() - i,
    {
        let (addr, mask) = ifs[i];
        let ghost prev = out@;
        match prefix_len_from_mask(mask) {
            Some(l) => {
                if 1 <= l && l <= 31 {
                    out.push(InterfaceBinding { addr, prefix_len: l });
                    assert(out@ + spec_bindings_from(ifs@, i as int + 1) =~= prev
                        + spec_bindings_from(ifs@, i as int));
                }
            },
            None => {},
        }
        i += 1;
    }
    assert(spec_bindings_from(ifs@, ifs@.len() as int) =~= Seq::<InterfaceBinding>::empty());
    assert(out@ =~= spec_bindings_from(ifs@, 0));
    out
}

/// Every kept binding is well formed.
proof fn lemma_bindings_wf(ifs: Seq<(u32, u32)>, i: int)
    ensures
        forall|k: int|
            0 <= k < spec_bindings_from(ifs, i).len() ==> wf_binding(
                #[trigger] spec_bindings_from(ifs, i)[k],
            ),
    decreases ifs.len() - i,
{
    if 0 <= i < ifs.len() {
        lemma_bindings_wf(ifs, i + 1);
        let rest = spec_bindings_from(ifs, i + 1);
        let cur = spec_bindings_from(ifs, i);
        assert forall|k: int| 0 <= k < cur.len() implies wf_binding(#[trigger] cur[k]) by {
            match spec_prefix_len(ifs[i].1) {
                Some(l) => {
                    if 1 <= l <= 31 {
                        if k == 0 {
                            assert(cur[k] == InterfaceBinding { addr: ifs[i].0, prefix_len: l });
                        } else {
                            assert(cur[k] == rest[k - 1]);
                        }
                    } else {
                        assert(cur[k] == rest[k]);
                    }
                },
                None => {
                    assert(cur[k] == rest[k]);
                },
            }
        }
    }
}

} // verus!
