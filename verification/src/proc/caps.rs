//! Process capabilities.
use vstd::prelude::*;

use crate::error::{KernelError, Result};

verus! {

/// A set of capabilities.
#[derive(Clone, Copy, Debug, PartialEq, Eq, Structural)]
pub struct CapabilitiesFlags {
    bits: u64,
}

pub const CAP_CHOWN: u64 = 1 << 0;

pub const CAP_DAC_OVERRIDE: u64 = 1 << 1;

pub const CAP_DAC_READ_SEARCH: u64 = 1 << 2;

pub const CAP_FOWNER: u64 = 1 << 3;

pub const CAP_FSETID: u64 = 1 << 4;

pub const CAP_KILL: u64 = 1 << 5;

pub const CAP_SETGID: u64 = 1 << 6;

pub const CAP_SETUID: u64 = 1 << 7;

pub const CAP_SETPCAP: u64 = 1 << 8;

pub const CAP_LINUX_IMMUTABLE: u64 = 1 << 9;

pub const CAP_NET_BIND_SERVICE: u64 = 1 << 10;

pub const CAP_NET_BROADCAST: u64 = 1 << 11;

pub const CAP_NET_ADMIN: u64 = 1 << 12;

pub const CAP_NET_RAW: u64 = 1 << 13;

pub const CAP_IPC_LOCK: u64 = 1 << 14;

pub const CAP_IPC_OWNER: u64 = 1 << 15;

pub const CAP_SYS_MODULE: u64 = 1 << 16;

pub const CAP_SYS_RAWIO: u64 = 1 << 17;

pub const CAP_SYS_CHROOT: u64 = 1 << 18;

pub const CAP_SYS_PTRACE: u64 = 1 << 19;

pub const CAP_SYS_PACCT: u64 = 1 << 20;

pub const CAP_SYS_ADMIN: u64 = 1 << 21;

pub const CAP_SYS_BOOT: u64 = 1 << 22;

pub const CAP_SYS_NICE: u64 = 1 << 23;

pub const CAP_SYS_RESOURCE: u64 = 1 << 24;

pub const CAP_SYS_TIME: u64 = 1 << 25;

pub const CAP_SYS_TTY_CONFIG: u64 = 1 << 26;

pub const CAP_MKNOD: u64 = 1 << 27;

pub const CAP_LEASE: u64 = 1 << 28;

pub const CAP_AUDIT_WRITE: u64 = 1 << 29;

pub const CAP_AUDIT_CONTROL: u64 = 1 << 30;

pub const CAP_SETFCAP: u64 = 1 << 31;

pub const CAP_MAC_OVERRIDE: u64 = 1 << 32;

pub const CAP_MAC_ADMIN: u64 = 1 << 33;

pub const CAP_SYSLOG: u64 = 1 << 34;

pub const CAP_WAKE_ALARM: u64 = 1 << 35;

pub const CAP_BLOCK_SUSPEND: u64 = 1 << 36;

pub const CAP_AUDIT_READ: u64 = 1 << 37;

pub const CAP_PERFMON: u64 = 1 << 38;

pub const CAP_BPF: u64 = 1 << 39;

pub const CAP_CHECKPOINT_RESTORE: u64 = 1 << 40;

/// All capabilities.
pub const CAP_ALL: u64 = 0x1ff_ffff_ffff;

/// The capability with the given number is in the set.
pub open spec fn has_cap(mask: u64, number: u64) -> bool {
    (mask >> number) & 1 == 1
}

/// Each capability of `b` is one of `a`.
pub open spec fn within(b: u64, a: u64) -> bool {
    forall|c: u64| c < 64 && #[trigger] has_cap(b, c) ==> has_cap(a, c)
}

/// The set has just the capability with the given number.
pub open spec fn is_just(mask: u64, number: u64) -> bool {
    forall|c: u64| c < 64 ==> (#[trigger] has_cap(mask, c) <==> c == number)
}

/// The bits of `b` are among those of `a`.
pub open spec fn has_bits(a: u64, b: u64) -> bool {
    a & b == b
}

impl CapabilitiesFlags {
    /// The capabilities, as bits.
    pub closed spec fn mask(self) -> u64 {
        self.bits
    }

    /// The bits determine the set.
    pub proof fn same_mask(a: Self, b: Self)
        requires
            a.mask() == b.mask(),
        ensures
            a == b,
    {
    }

    /// Returns the set of all capabilities.
    pub fn all() -> (r: Self)
        ensures
            r.mask() == CAP_ALL,
    {
        CapabilitiesFlags { bits: CAP_ALL }
    }

    /// Returns the empty set.
    pub fn empty() -> (r: Self)
        ensures
            r.mask() == 0,
    {
        CapabilitiesFlags { bits: 0 }
    }

    /// Returns the set of the capabilities whose bits are set. Other bits are ignored.
    pub fn from_bits_truncate(bits: u64) -> (r: Self)
        ensures
            r.mask() == bits & CAP_ALL,
            forall|c: u64|
                c < 64 ==> (#[trigger] has_cap(r.mask(), c) <==> has_cap(bits, c) && c <= 40),
    {
        proof {
            lemma_common(bits, CAP_ALL);
            all_capabilities_are_numbered();
        }
        CapabilitiesFlags { bits: bits & CAP_ALL }
    }

    /// Returns the set of the capabilities whose bits are set; `None` if there are other
    /// bits.
    pub fn from_bits(bits: u64) -> (r: Option<Self>)
        ensures
            match r {
                Some(flags) => has_bits(CAP_ALL, bits) && flags.mask() == bits,
                None => !has_bits(CAP_ALL, bits),
            },
            r is Some <==> forall|c: u64| c < 64 && #[trigger] has_cap(bits, c) ==> c <= 40,
    {
        proof {
            bits_are_capabilities(CAP_ALL, bits);
            all_capabilities_are_numbered();
        }
        if CAP_ALL & bits == bits {
            Some(CapabilitiesFlags { bits })
        } else {
            None
        }
    }

    /// Returns the bits of the capabilities in the set.
    pub fn bits(&self) -> (r: u64)
        ensures
            r == self.mask(),
    {
        self.bits
    }

    /// Returns `true` if all capabilities in `other` are in the set.
    pub fn contains(&self, other: Self) -> (r: bool)
        ensures
            r == has_bits(self.mask(), other.mask()),
            r == within(other.mask(), self.mask()),
    {
        proof {
            bits_are_capabilities(self.mask(), other.mask());
        }
        self.bits & other.bits == other.bits
    }
}

/// The capabilities of a process.
#[derive(Clone, Copy, Debug, PartialEq, Eq, Structural)]
pub struct Capabilities {
    effective: CapabilitiesFlags,
    permitted: CapabilitiesFlags,
    inheritable: CapabilitiesFlags,
    ambient: CapabilitiesFlags,
    bounding: CapabilitiesFlags,
}

/// The capabilities of a process, as bits.
#[verifier::ext_equal]
pub ghost struct CapMasks {
    pub effective: u64,
    pub permitted: u64,
    pub inheritable: u64,
    pub ambient: u64,
    pub bounding: u64,
}

/// Whether a caller may change the publicly mutable sets of a process: the permitted set
/// can only shrink, the effective set has to be permitted, and the inheritable set has to
/// be within the bounding set, unless the caller has [`CAP_SETPCAP`].
pub open spec fn may_set(
    process: CapMasks,
    caller: CapMasks,
    effective: u64,
    permitted: u64,
    inheritable: u64,
) -> bool {
    &&& has_bits(process.permitted, permitted)
    &&& has_bits(permitted, effective)
    &&& has_bits(process.bounding, inheritable) || has_bits(caller.effective, CAP_SETPCAP)
}

impl View for Capabilities {
    type V = CapMasks;

    closed spec fn view(&self) -> CapMasks {
        CapMasks {
            effective: self.effective.mask(),
            permitted: self.permitted.mask(),
            inheritable: self.inheritable.mask(),
            ambient: self.ambient.mask(),
            bounding: self.bounding.mask(),
        }
    }
}

impl Capabilities {
    /// Creates capabilities with the given sets.
    pub fn new(
        effective: CapabilitiesFlags,
        permitted: CapabilitiesFlags,
        inheritable: CapabilitiesFlags,
        ambient: CapabilitiesFlags,
        bounding: CapabilitiesFlags,
    ) -> (r: Self)
        ensures
            r@ == (CapMasks {
                effective: effective.mask(),
                permitted: permitted.mask(),
                inheritable: inheritable.mask(),
                ambient: ambient.mask(),
                bounding: bounding.mask(),
            }),
    {
        Capabilities { effective, permitted, inheritable, ambient, bounding }
    }

    /// Creates the capabilities of the root user: all of them.
    pub fn new_root() -> (r: Self)
        ensures
            r@ == (CapMasks {
                effective: CAP_ALL,
                permitted: CAP_ALL,
                inheritable: CAP_ALL,
                ambient: CAP_ALL,
                bounding: CAP_ALL,
            }),
    {
        Self::new_cap(CapabilitiesFlags::all())
    }

    /// Creates capabilities without any.
    pub fn new_empty() -> (r: Self)
        ensures
            r@ == (CapMasks {
                effective: 0,
                permitted: 0,
                inheritable: 0,
                ambient: 0,
                bounding: 0,
            }),
    {
        Self::new_cap(CapabilitiesFlags::empty())
    }

    /// Convenience method for creating capabilities with a single capability
    pub fn new_cap(cap: CapabilitiesFlags) -> (r: Self)
        ensures
            r@ == (CapMasks {
                effective: cap.mask(),
                permitted: cap.mask(),
                inheritable: cap.mask(),
                ambient: cap.mask(),
                bounding: cap.mask(),
            }),
    {
        Capabilities {
            effective: cap,
            permitted: cap,
            inheritable: cap,
            ambient: cap,
            bounding: cap,
        }
    }

    /// Sets the publicly mutable fields on capabilities.
    ///
    /// `permitted` should be a subset of the permitted set, and `effective` should be a
    /// subset of `permitted`; `inheritable` should be a subset of the bounding set, or the
    /// caller's effective set should contain [`CAP_SETPCAP`].
    pub fn set_public(
        &mut self,
        caller_caps: Capabilities,
        effective: CapabilitiesFlags,
        permitted: CapabilitiesFlags,
        inheritable: CapabilitiesFlags,
    ) -> (r: Result<()>)
        ensures
            ({
                let allowed = may_set(
                    old(self)@,
                    caller_caps@,
                    effective.mask(),
                    permitted.mask(),
                    inheritable.mask(),
                );
                &&& allowed ==> r is Ok && final(self)@ == (CapMasks {
                    effective: effective.mask(),
                    permitted: permitted.mask(),
                    inheritable: inheritable.mask(),
                    ..old(self)@
                })
                &&& !allowed ==> r == Err::<(), KernelError>(KernelError::NotPermitted)
                    && final(self)@ == old(self)@
            }),
    {
        proof {
            assert(CAP_ALL & CAP_SETPCAP == CAP_SETPCAP) by (bit_vector)
                requires
                    CAP_ALL == 0x1ff_ffff_ffffu64,
                    CAP_SETPCAP == 1u64 << 8,
            ;
            assert(CAP_SETPCAP & CAP_ALL == CAP_SETPCAP) by (bit_vector)
                requires
                    CAP_ALL == 0x1ff_ffff_ffffu64,
                    CAP_SETPCAP == 1u64 << 8,
            ;
        }
        let setpcap = CapabilitiesFlags::from_bits_truncate(CAP_SETPCAP);
        if !self.permitted.contains(permitted) || !permitted.contains(effective) || (
        !self.bounding.contains(inheritable) && !caller_caps.effective.contains(setpcap)) {
            return Err(KernelError::NotPermitted);
        }
        self.effective = effective;
        self.permitted = permitted;
        self.inheritable = inheritable;
        Ok(())
    }

    /// Returns the effective set.
    pub fn effective(&self) -> (r: CapabilitiesFlags)
        ensures
            r.mask() == self@.effective,
    {
        self.effective
    }

    /// Returns the permitted set.
    pub fn permitted(&self) -> (r: CapabilitiesFlags)
        ensures
            r.mask() == self@.permitted,
    {
        self.permitted
    }

    /// Returns the inheritable set.
    pub fn inheritable(&self) -> (r: CapabilitiesFlags)
        ensures
            r.mask() == self@.inheritable,
    {
        self.inheritable
    }

    /// Returns the ambient set.
    pub fn ambient(&self) -> (r: CapabilitiesFlags)
        ensures
            r.mask() == self@.ambient,
    {
        self.ambient
    }

    /// Returns the bounding set.
    pub fn bounding(&self) -> (r: CapabilitiesFlags)
        ensures
            r.mask() == self@.bounding,
    {
        self.bounding
    }

    /// Checks if a capability is effective, as in if it can be used.
    pub fn is_capable(&self, cap: CapabilitiesFlags) -> (r: bool)
        ensures
            r == has_bits(self@.effective, cap.mask()),
            r == within(cap.mask(), self@.effective),
    {
        self.effective.contains(cap)
    }

    /// Shortcut for returning an error if a capability is not effective.
    pub fn check_capable(&self, cap: CapabilitiesFlags) -> (r: Result<()>)
        ensures
            has_bits(self@.effective, cap.mask()) ==> r is Ok,
            !has_bits(self@.effective, cap.mask()) ==> r == Err::<(), KernelError>(
                KernelError::NotPermitted,
            ),
            r is Ok <==> within(cap.mask(), self@.effective),
    {
        if !self.effective.contains(cap) {
            Err(KernelError::NotPermitted)
        } else {
            Ok(())
        }
    }
}

/// Containing the bits is containing each single capability.
pub proof fn bits_are_capabilities(a: u64, b: u64)
    ensures
        has_bits(a, b) <==> within(b, a),
{
    if has_bits(a, b) {
        assert forall|c: u64| c < 64 && #[trigger] has_cap(b, c) implies has_cap(a, c) by {
            assert((a >> c) & 1 == 1) by (bit_vector)
                requires
                    a & b == b,
                    (b >> c) & 1 == 1,
            ;
        }
    }
    if within(b, a) {
        let d = b & !a;
        assert forall|c: u64| c < 64 implies !#[trigger] has_cap(d, c) by {
            if has_cap(d, c) {
                assert((b >> c) & 1 == 1 && (a >> c) & 1 == 0) by (bit_vector)
                    requires
                        ((b & !a) >> c) & 1 == 1,
                ;
                assert(has_cap(b, c));
            }
        }
        lemma_no_bits(d, 0);
        assert(a & b == b) by (bit_vector)
            requires
                (b & !a) >> 0u64 == 0,
        ;
    }
}

/// Without bits from `n` on, there is nothing left above them.
proof fn lemma_no_bits(d: u64, n: u64)
    requires
        n < 64,
        forall|c: u64| c < 64 ==> !#[trigger] has_cap(d, c),
    ensures
        d >> n == 0,
    decreases 64 - n,
{
    assert(!has_cap(d, n));
    if n < 63 {
        let m: u64 = (n + 1) as u64;
        lemma_no_bits(d, m);
        assert(d >> n == 0) by (bit_vector)
            requires
                n < 63,
                m == n + 1,
                d >> m == 0,
                (d >> n) & 1 != 1,
        ;
    } else {
        assert(d >> 63u64 == 0) by (bit_vector)
            requires
                (d >> 63u64) & 1 != 1,
        ;
    }
}

/// What two sets have in common are the capabilities that both have.
proof fn lemma_common(a: u64, b: u64)
    ensures
        forall|c: u64|
            c < 64 ==> (#[trigger] has_cap(a & b, c) <==> has_cap(a, c) && has_cap(b, c)),
{
    assert forall|c: u64| c < 64 implies (#[trigger] has_cap(a & b, c) <==> has_cap(a, c)
        && has_cap(b, c)) by {
        assert(((a & b) >> c) & 1 == 1 <==> (a >> c) & 1 == 1 && (b >> c) & 1 == 1) by (bit_vector);
    }
}

/// The set of all capabilities has those from 0 up to 40.
pub proof fn all_capabilities_are_numbered()
    ensures
        forall|c: u64| c < 64 ==> (#[trigger] has_cap(CAP_ALL, c) <==> c <= 40),
{
    assert forall|c: u64| c < 64 implies (#[trigger] has_cap(CAP_ALL, c) <==> c <= 40) by {
        assert((0x1ff_ffff_ffffu64 >> c) & 1 == 1 <==> c <= 40) by (bit_vector)
            requires
                c < 64,
        ;
    }
}

/// A single bit is a single capability.
proof fn lemma_one_bit(number: u64)
    requires
        number < 64,
    ensures
        is_just(1u64 << number, number),
{
    assert forall|c: u64| c < 64 implies (#[trigger] has_cap(1u64 << number, c) <==> c == number) by {
        assert(((1u64 << number) >> c) & 1 == 1 <==> c == number) by (bit_vector)
            requires
                c < 64,
                number < 64,
        ;
    }
}

/// A change of the publicly mutable sets is accepted just if each single capability of the
/// new permitted set is permitted already, each of the effective set is one of the new
/// permitted set, and each of the inheritable set is in the bounding set of the process;
/// the last does not matter where [`CAP_SETPCAP`] is one of the caller's effective
/// capabilities.
pub proof fn sets_are_checked_capability_by_capability(
    process: CapMasks,
    caller: CapMasks,
    effective: u64,
    permitted: u64,
    inheritable: u64,
)
    ensures
        may_set(process, caller, effective, permitted, inheritable) <==> {
            &&& within(permitted, process.permitted)
            &&& within(effective, permitted)
            &&& within(inheritable, process.bounding) || has_cap(caller.effective, 8)
        },
{
    bits_are_capabilities(process.permitted, permitted);
    bits_are_capabilities(permitted, effective);
    bits_are_capabilities(process.bounding, inheritable);
    bits_are_capabilities(caller.effective, CAP_SETPCAP);
    lemma_one_bit(8);
    assert(is_just(CAP_SETPCAP, 8));
    assert(has_cap(CAP_SETPCAP, 8));
}

/// The capabilities have the numbers by which programs know them.
pub proof fn capabilities_have_their_numbers()
    ensures
        is_just(CAP_CHOWN, 0),
        is_just(CAP_DAC_OVERRIDE, 1),
        is_just(CAP_DAC_READ_SEARCH, 2),
        is_just(CAP_FOWNER, 3),
        is_just(CAP_FSETID, 4),
        is_just(CAP_KILL, 5),
        is_just(CAP_SETGID, 6),
        is_just(CAP_SETUID, 7),
        is_just(CAP_SETPCAP, 8),
        is_just(CAP_LINUX_IMMUTABLE, 9),
        is_just(CAP_NET_BIND_SERVICE, 10),
        is_just(CAP_NET_BROADCAST, 11),
        is_just(CAP_NET_ADMIN, 12),
        is_just(CAP_NET_RAW, 13),
        is_just(CAP_IPC_LOCK, 14),
        is_just(CAP_IPC_OWNER, 15),
        is_just(CAP_SYS_MODULE, 16),
        is_just(CAP_SYS_RAWIO, 17),
        is_just(CAP_SYS_CHROOT, 18),
        is_just(CAP_SYS_PTRACE, 19),
        is_just(CAP_SYS_PACCT, 20),
        is_just(CAP_SYS_ADMIN, 21),
        is_just(CAP_SYS_BOOT, 22),
        is_just(CAP_SYS_NICE, 23),
        is_just(CAP_SYS_RESOURCE, 24),
        is_just(CAP_SYS_TIME, 25),
        is_just(CAP_SYS_TTY_CONFIG, 26),
        is_just(CAP_MKNOD, 27),
        is_just(CAP_LEASE, 28),
        is_just(CAP_AUDIT_WRITE, 29),
        is_just(CAP_AUDIT_CONTROL, 30),
        is_just(CAP_SETFCAP, 31),
        is_just(CAP_MAC_OVERRIDE, 32),
        is_just(CAP_MAC_ADMIN, 33),
        is_just(CAP_SYSLOG, 34),
        is_just(CAP_WAKE_ALARM, 35),
        is_just(CAP_BLOCK_SUSPEND, 36),
        is_just(CAP_AUDIT_READ, 37),
        is_just(CAP_PERFMON, 38),
        is_just(CAP_BPF, 39),
        is_just(CAP_CHECKPOINT_RESTORE, 40),
{
    lemma_one_bit(0);
    lemma_one_bit(1);
    lemma_one_bit(2);
    lemma_one_bit(3);
    lemma_one_bit(4);
    lemma_one_bit(5);
    lemma_one_bit(6);
    lemma_one_bit(7);
    lemma_one_bit(8);
    lemma_one_bit(9);
    lemma_one_bit(10);
    lemma_one_bit(11);
    lemma_one_bit(12);
    lemma_one_bit(13);
    lemma_one_bit(14);
    lemma_one_bit(15);
    lemma_one_bit(16);
    lemma_one_bit(17);
    lemma_one_bit(18);
    lemma_one_bit(19);
    lemma_one_bit(20);
    lemma_one_bit(21);
    lemma_one_bit(22);
    lemma_one_bit(23);
    lemma_one_bit(24);
    lemma_one_bit(25);
    lemma_one_bit(26);
    lemma_one_bit(27);
    lemma_one_bit(28);
    lemma_one_bit(29);
    lemma_one_bit(30);
    lemma_one_bit(31);
    lemma_one_bit(32);
    lemma_one_bit(33);
    lemma_one_bit(34);
    lemma_one_bit(35);
    lemma_one_bit(36);
    lemma_one_bit(37);
    lemma_one_bit(38);
    lemma_one_bit(39);
    lemma_one_bit(40);
}

/// A process cannot gain permitted or effective capabilities by changing its sets.
pub proof fn set_public_gains_nothing(
    process: CapMasks,
    caller: CapMasks,
    effective: u64,
    permitted: u64,
    inheritable: u64,
    cap: u64,
)
    requires
        may_set(process, caller, effective, permitted, inheritable),
        has_bits(effective, cap),
    ensures
        has_bits(permitted, cap),
        has_bits(process.permitted, cap),
{
    let p = process.permitted;
    assert(permitted & cap == cap && p & cap == cap) by (bit_vector)
        requires
            p & permitted == permitted,
            permitted & effective == effective,
            effective & cap == cap,
    ;
}

} // verus!
