use libkernel::error::KernelError;
use libkernel::pod::Pod;
use libkernel::proc::caps::{
    Capabilities, CapabilitiesFlags, CAP_ALL, CAP_CHECKPOINT_RESTORE, CAP_CHOWN, CAP_KILL,
    CAP_SETPCAP, CAP_SYS_ADMIN,
};
use libkernel::proc::ids::{Gid, Uid};

fn flags(bits: u64) -> CapabilitiesFlags {
    CapabilitiesFlags::from_bits_truncate(bits)
}

#[test]
fn flags_are_bits() {
    assert_eq!(CAP_CHOWN, 1);
    assert_eq!(CAP_SYS_ADMIN, 1 << 21);
    assert_eq!(CAP_CHECKPOINT_RESTORE, 1 << 40);
    assert_eq!(CapabilitiesFlags::all().bits(), CAP_ALL);
    assert_eq!(CapabilitiesFlags::empty().bits(), 0);
    assert_eq!(flags(u64::MAX), CapabilitiesFlags::all());
    assert_eq!(CapabilitiesFlags::from_bits(1 << 41), None);
    assert_eq!(CapabilitiesFlags::from_bits(CAP_KILL), Some(flags(CAP_KILL)));
    assert!(flags(CAP_CHOWN | CAP_KILL).contains(flags(CAP_KILL)));
    assert!(!flags(CAP_CHOWN).contains(flags(CAP_CHOWN | CAP_KILL)));
}

#[test]
fn root_is_capable_of_everything() {
    let root = Capabilities::new_root();
    assert!(root.is_capable(CapabilitiesFlags::all()));
    assert_eq!(root.check_capable(flags(CAP_SYS_ADMIN)), Ok(()));
    let nobody = Capabilities::new_empty();
    assert!(!nobody.is_capable(flags(CAP_CHOWN)));
    assert_eq!(
        nobody.check_capable(flags(CAP_CHOWN)),
        Err(KernelError::NotPermitted)
    );
    // Only the effective set counts.
    let caps = Capabilities::new(
        flags(CAP_CHOWN),
        flags(CAP_CHOWN | CAP_KILL),
        flags(1 << 2),
        flags(1 << 3),
        flags(1 << 4),
    );
    assert!(caps.is_capable(flags(CAP_CHOWN)));
    assert!(!caps.is_capable(flags(CAP_KILL)));
    assert_eq!(caps.effective(), flags(CAP_CHOWN));
    assert_eq!(caps.permitted(), flags(CAP_CHOWN | CAP_KILL));
    assert_eq!(caps.inheritable(), flags(1 << 2));
    assert_eq!(caps.ambient(), flags(1 << 3));
    assert_eq!(caps.bounding(), flags(1 << 4));
}

#[test]
fn public_sets_are_limited() {
    let (none, chown, kill) = (flags(0), flags(CAP_CHOWN), flags(CAP_KILL));
    let caller = Capabilities::new_empty();
    let mut caps = Capabilities::new_cap(flags(CAP_CHOWN | CAP_KILL));

    // The permitted set can shrink, but not grow.
    assert_eq!(caps.set_public(caller, chown, chown, none), Ok(()));
    assert_eq!(caps.effective(), chown);
    assert_eq!(caps.permitted(), chown);
    assert_eq!(caps.inheritable(), none);
    assert_eq!(
        caps.set_public(caller, none, kill, none),
        Err(KernelError::NotPermitted)
    );
    // What is effective has to be permitted.
    assert_eq!(
        caps.set_public(caller, chown, none, none),
        Err(KernelError::NotPermitted)
    );
    assert_eq!(caps.effective(), chown);
    // What is inheritable has to be in the bounding set, or the caller may set it anyway.
    assert_eq!(caps.set_public(caller, none, none, kill), Ok(()));
    assert_eq!(
        caps.set_public(caller, none, none, flags(CAP_SYS_ADMIN)),
        Err(KernelError::NotPermitted)
    );
    let caller = Capabilities::new_cap(flags(CAP_SETPCAP));
    assert_eq!(
        caps.set_public(caller, none, none, flags(CAP_SYS_ADMIN)),
        Ok(())
    );
    assert_eq!(caps.inheritable(), flags(CAP_SYS_ADMIN));
    assert_eq!(caps.bounding(), flags(CAP_CHOWN | CAP_KILL));
}

#[test]
fn user_and_group_ids() {
    assert!(Uid::new_root().is_root());
    assert!(!Uid::new(1).is_root());
    assert_eq!(u32::from(Uid::new(7)), 7);
    assert_eq!(u32::from(Gid::new_root_group()), 0);
    assert_eq!(u32::from(Gid::new(8)), 8);
    // Only the low half of what a system call passes counts.
    assert_eq!(Uid::from(0x5_0000_0003u64), Uid::new(3));
    assert_eq!(Gid::from(0xffff_ffffu64), Gid::new(u32::MAX));
}

/// The number of bytes of a plain type.
fn size<T: Pod>() -> usize {
    std::mem::size_of::<T>()
}

#[test]
fn integers_and_arrays_are_plain() {
    assert_eq!(size::<u8>(), 1);
    assert_eq!(size::<i128>(), 16);
    assert_eq!(size::<[u32; 3]>(), 12);
}
