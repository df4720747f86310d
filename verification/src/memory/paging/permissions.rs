//! Page-table entry permission flags.
use vstd::prelude::*;
use vstd::std_specs::convert::FromSpecImpl;
use vstd::string::StringExecFns;

use crate::memory::proc_vm::vmarea::{AccessKind, VMAPermissions};

verus! {

/// The memory permissions of a virtual memory mapping.
#[derive(Clone, Copy, Debug, PartialEq, Eq, Structural)]
pub struct PtePermissions {
    pub(crate) read: bool,
    pub(crate) write: bool,
    pub(crate) execute: bool,
    pub(crate) user: bool,
    pub(crate) cow: bool,
}

impl Default for PtePermissions {
    /// No access at all, from kernel space only.
    fn default() -> (r: Self)
        ensures
            r == Self::bits(false, false, false, false, false),
    {
        Self { read: false, write: false, execute: false, user: false, cow: false }
    }
}

impl From<VMAPermissions> for PtePermissions {
    fn from(value: VMAPermissions) -> (r: Self) {
        Self {
            read: value.read,
            write: value.write,
            execute: value.execute,
            user: true,
            cow: false,
        }
    }
}

impl FromSpecImpl<VMAPermissions> for PtePermissions {
    open spec fn obeys_from_spec() -> bool {
        true
    }

    open spec fn from_spec(value: VMAPermissions) -> Self {
        PtePermissions::of_vma(value)
    }
}

impl PtePermissions {
    /// The permissions with the given flags.
    pub open(crate) spec fn bits(
        read: bool,
        write: bool,
        execute: bool,
        user: bool,
        cow: bool,
    ) -> Self {
        PtePermissions { read, write, execute, user, cow }
    }

    /// The permissions of the pages of a VMA: as the VMA says, from user space,
    /// and not copy-on-write.
    pub open spec fn of_vma(value: VMAPermissions) -> Self {
        Self::bits(value.read, value.write, value.execute, true, false)
    }

    /// The read flag.
    pub open(crate) spec fn reads(self) -> bool {
        self.read
    }

    /// The write flag.
    pub open(crate) spec fn writes(self) -> bool {
        self.write
    }

    /// The execute flag.
    pub open(crate) spec fn executes(self) -> bool {
        self.execute
    }

    /// The user flag.
    pub open(crate) spec fn users(self) -> bool {
        self.user
    }

    /// The copy-on-write flag.
    pub open(crate) spec fn cows(self) -> bool {
        self.cow
    }

    /// No mapping is both writable and copy-on-write.
    pub open spec fn wf(self) -> bool {
        !(self.writes() && self.cows())
    }

    /// Creates permissions from their raw flags, as decoded from a page table
    /// entry.
    pub(crate) fn from_raw_bits(
        read: bool,
        write: bool,
        execute: bool,
        user: bool,
        cow: bool,
    ) -> (r: Self)
        requires
            !(write && cow),
        ensures
            r == Self::bits(read, write, execute, user, cow),
            r.wf(),
    {
        Self { read, write, execute, user, cow }
    }

    /// Creates a read-only permission set.
    pub fn ro(user: bool) -> (r: Self)
        ensures
            r == Self::bits(true, false, false, user, false),
            r.wf(),
    {
        Self { read: true, write: false, execute: false, user, cow: false }
    }

    /// Creates a read-write permission set.
    pub fn rw(user: bool) -> (r: Self)
        ensures
            r == Self::bits(true, true, false, user, false),
            r.wf(),
    {
        Self { read: true, write: true, execute: false, user, cow: false }
    }

    /// Creates a read-execute permission set.
    pub fn rx(user: bool) -> (r: Self)
        ensures
            r == Self::bits(true, false, true, user, false),
            r.wf(),
    {
        Self { read: true, write: false, execute: true, user, cow: false }
    }

    /// Creates a read-write-execute permission set.
    pub fn rwx(user: bool) -> (r: Self)
        ensures
            r == Self::bits(true, true, true, user, false),
            r.wf(),
    {
        Self { read: true, write: true, execute: true, user, cow: false }
    }

    /// Returns `true` if the mapping is readable.
    pub fn is_read(&self) -> (r: bool)
        ensures
            r == self.reads(),
    {
        self.read
    }

    /// Returns `true` if the mapping is writable. A copy-on-write mapping is
    /// not.
    pub fn is_write(&self) -> (r: bool)
        ensures
            r == self.writes(),
    {
        self.write
    }

    /// Returns `true` if the mapping is executable.
    pub fn is_execute(&self) -> (r: bool)
        ensures
            r == self.executes(),
    {
        self.execute
    }

    /// Returns `true` if the mapping is accessible from user space.
    pub fn is_user(&self) -> (r: bool)
        ensures
            r == self.users(),
    {
        self.user
    }

    /// Returns `true` if the mapping is copy-on-write.
    pub fn is_cow(&self) -> (r: bool)
        ensures
            r == self.cows(),
    {
        self.cow
    }

    /// The copy-on-write form of these permissions.
    pub open spec fn as_cow(self) -> Self {
        Self::bits(self.reads(), false, self.executes(), self.users(), true)
    }

    /// The writable form of these permissions.
    pub open spec fn as_writable(self) -> Self {
        Self::bits(self.reads(), true, self.executes(), self.users(), false)
    }

    /// Converts a writable permission set into its copy-on-write form.
    pub fn into_cow(self) -> (r: Self)
        requires
            self.writes(),
        ensures
            r == self.as_cow(),
            r.wf(),
    {
        Self { read: self.read, write: false, execute: self.execute, user: self.user, cow: true }
    }

    /// Converts a copy-on-write permission set back into a writable one.
    pub fn from_cow(self) -> (r: Self)
        requires
            self.cows(),
        ensures
            r == self.as_writable(),
            r.wf(),
    {
        Self { read: self.read, write: true, execute: self.execute, user: self.user, cow: false }
    }

    /// The text form: `r`, `w` (or `c` for copy-on-write) and `x`, each replaced
    /// by `-` where the flag is off, a space, and `u` for user or `k` for kernel.
    pub open spec fn text(self) -> Seq<char> {
        seq![
            if self.reads() {
                'r'
            } else {
                '-'
            },
            if self.writes() {
                'w'
            } else if self.cows() {
                'c'
            } else {
                '-'
            },
            if self.executes() {
                'x'
            } else {
                '-'
            },
            ' ',
            if self.users() {
                'u'
            } else {
                'k'
            },
        ]
    }

    /// Returns the text form, such as `rw- u`.
    pub fn to_string(&self) -> (r: String)
        ensures
            r@ == self.text(),
    {
        let read = if self.read {
            "r"
        } else {
            "-"
        };
        let write = if self.write {
            "w"
        } else if self.cow {
            "c"
        } else {
            "-"
        };
        let execute = if self.execute {
            "x"
        } else {
            "-"
        };
        let user = if self.user {
            " u"
        } else {
            " k"
        };
        proof {
            reveal_strlit("r");
            reveal_strlit("w");
            reveal_strlit("c");
            reveal_strlit("x");
            reveal_strlit("-");
            reveal_strlit(" u");
            reveal_strlit(" k");
        }
        let text = String::new().concat(read).concat(write).concat(execute).concat(user);
        assert(text@ =~= self.text());
        text
    }
}

/// Making a writable permission set copy-on-write and writable again gives it
/// back.
pub proof fn cow_round_trip(p: PtePermissions)
    requires
        p.wf(),
        p.writes(),
    ensures
        p.as_cow().cows(),
        p.as_cow().as_writable() == p,
        p.as_writable() == p,
{
}

/// Making permissions copy-on-write takes away writing alone, and making them writable again
/// takes away copy-on-write alone: who may read and execute does not change.
pub proof fn cow_is_about_writing(p: PtePermissions)
    ensures
        !p.as_cow().writes(),
        p.as_cow().cows(),
        p.as_writable().writes(),
        !p.as_writable().cows(),
        forall|q: PtePermissions|
            q == p.as_cow() || q == p.as_writable() ==> #[trigger] q.reads() == p.reads()
                && q.executes() == p.executes() && q.users() == p.users(),
{
}

/// The pages of a VMA can be used by user space in the ways that the VMA permits.
pub proof fn pages_permit_what_the_vma_permits(value: VMAPermissions)
    ensures
        PtePermissions::of_vma(value).reads() == value.permits(AccessKind::Read),
        PtePermissions::of_vma(value).writes() == value.permits(AccessKind::Write),
        PtePermissions::of_vma(value).executes() == value.permits(AccessKind::Execute),
        PtePermissions::of_vma(value).users(),
        !PtePermissions::of_vma(value).cows(),
{
}

/// The text form tells all of the permissions, each at its place.
pub proof fn text_shows_the_permissions(p: PtePermissions)
    requires
        p.wf(),
    ensures
        p.text().len() == 5,
        p.reads() <==> p.text()[0] == 'r',
        p.writes() <==> p.text()[1] == 'w',
        p.cows() <==> p.text()[1] == 'c',
        p.executes() <==> p.text()[2] == 'x',
        p.users() <==> p.text()[4] == 'u',
        !p.users() <==> p.text()[4] == 'k',
        p.text()[3] == ' ',
        forall|i: int| 0 <= i < 3 ==> "rwcx-"@.contains(#[trigger] p.text()[i]),
{
    reveal_strlit("rwcx-");
    let all = "rwcx-"@;
    assert(all[0] == 'r' && all[1] == 'w' && all[2] == 'c' && all[3] == 'x' && all[4] == '-');
}

} // verus!
