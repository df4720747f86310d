use libkernel::memory::paging::permissions::PtePermissions;

#[test]
fn test_constructors() {
    let p = PtePermissions::rw(true);
    assert!(p.is_read());
    assert!(p.is_write());
    assert!(!p.is_execute());
    assert!(p.is_user());
    assert!(!p.is_cow());

    let p = PtePermissions::rx(false);
    assert!(p.is_read());
    assert!(!p.is_write());
    assert!(p.is_execute());
    assert!(!p.is_user());
    assert!(!p.is_cow());
}

#[test]
fn test_cow_transition() {
    let p_rw = PtePermissions::rw(true);
    let p_cow = p_rw.into_cow();

    // Check CoW state
    assert!(p_cow.is_read());
    assert!(!p_cow.is_write());
    assert!(!p_cow.is_execute());
    assert!(p_cow.is_user());
    assert!(p_cow.is_cow());

    // Transition back
    let p_final = p_cow.from_cow();
    assert_eq!(p_rw, p_final);
}

#[test]
fn test_display_format() {
    assert_eq!(PtePermissions::rw(true).to_string(), "rw- u");
    assert_eq!(PtePermissions::rwx(false).to_string(), "rwx k");
    assert_eq!(PtePermissions::ro(true).to_string(), "r-- u");
    assert_eq!(PtePermissions::rx(false).to_string(), "r-x k");

    let cow_perms = PtePermissions::rw(true).into_cow();
    assert_eq!(cow_perms.to_string(), "rc- u");

    let cow_exec_perms = PtePermissions::rwx(false).into_cow();
    assert_eq!(cow_exec_perms.to_string(), "rcx k");
}
