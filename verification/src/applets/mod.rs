//! The shell's applets: each turns its arguments (and the state it reads)
//! into the text it shows. The registry lists the applets that were
//! configured in, which the shell looks up by name.
pub mod args;
pub mod entries;
pub mod ls;
pub mod mk;
pub mod rm;
pub mod cp;
pub mod out;
pub mod heap;
pub mod datetime;
pub mod sysinfo;

use vstd::prelude::*;
use vstd::string::StringSliceAdditionalSpecFns;
use crate::text::bytes_eq;

verus! {

/// Which applet an entry of the registry runs.
#[derive(Clone, Copy, PartialEq, Eq, Structural)]
pub enum AppletKind {
    Sysinfo,
    Datetime,
    Heap,
}

/// A registered applet that can be invoked from the shell.
#[derive(Clone, Copy)]
pub struct Applet {
    pub name: &'static str,
    pub description: &'static str,
    pub kind: AppletKind,
}

/// The registry entry of applet `k`: its command name and description.
pub open spec fn applet_of(k: AppletKind) -> Applet {
    match k {
        AppletKind::Sysinfo => Applet { name: "sysinfo", description: "Display system information", kind: k },
        AppletKind::Datetime => Applet { name: "datetime", description: "Display current date and time", kind: k },
        AppletKind::Heap => Applet { name: "heap", description: "Show heap allocator statistics", kind: k },
    }
}

/// The registry entry of applet `k`.
pub fn applet(k: AppletKind) -> (a: Applet)
    ensures
        a == applet_of(k),
{
    match k {
        AppletKind::Sysinfo => Applet { name: "sysinfo", description: "Display system information", kind: k },
        AppletKind::Datetime => Applet { name: "datetime", description: "Display current date and time", kind: k },
        AppletKind::Heap => Applet { name: "heap", description: "Show heap allocator statistics", kind: k },
    }
}

/// Registry of all compiled-in applets.
pub struct AppletRegistry {
    pub applets: Vec<Applet>,
}

/// Index of the first applet of `s` named `name`, if any.
pub open spec fn first_named(s: Seq<Applet>, name: Seq<u8>) -> Option<int> {
    if exists|i: int| 0 <= i < s.len() && s[i].name.spec_bytes() == name {
        Some(
            choose|i: int|
                0 <= i < s.len() && s[i].name.spec_bytes() == name && forall|j: int|
                    0 <= j < i ==> s[j].name.spec_bytes() != name,
        )
    } else {
        None
    }
}

impl AppletRegistry {
    /// A registry of `applets`, in that order.
    pub fn new(applets: Vec<Applet>) -> (r: Self)
        ensures
            r.applets@ == applets@,
    {
        AppletRegistry { applets }
    }

    /// The registered applets, in order.
    pub fn list(&self) -> (r: &[Applet])
        ensures
            r@ == self.applets@,
    {
        self.applets.as_slice()
    }

    /// The first applet named `name`.
    pub fn find(&self, name: &str) -> (r: Option<&Applet>)
        ensures
            match first_named(self.applets@, name.spec_bytes()) {
                Some(i) => r == Some(&self.applets@[i]),
                None => r is None,
            },
    {
        let nb = name.as_bytes();
        let mut i: usize = 0;
        while i < self.applets.len()
            invariant
                i <= self.applets@.len(),
                nb@ == name.spec_bytes(),
                forall|j: int| 0 <= j < i ==> self.applets@[j].name.spec_bytes() != nb@,
            decreases self.applets@.len() - i,
        {
            if bytes_eq(self.applets[i].name.as_bytes(), nb) {
                proof {
                    let s = self.applets@;
                    assert(exists|k: int| 0 <= k < s.len() && s[k].name.spec_bytes() == nb@) by {
                        assert(s[i as int].name.spec_bytes() == nb@);
                    }
                    let c = first_named(s, nb@)->0;
                    if c < i {
                        assert(s[c].name.spec_bytes() != nb@);
                    }
                    if c > i {
                        assert(s[i as int].name.spec_bytes() != nb@);
                    }
                }
                return Some(&self.applets[i]);
            }
            i = i + 1;
        }
        None
    }
}

/// The applets of a build with the optional `sysinfo` and `datetime`
/// applets configured in or not: those two first, then `heap`.
pub open spec fn registry_kinds(sysinfo: bool, datetime: bool) -> Seq<AppletKind> {
    let s = if sysinfo { seq![AppletKind::Sysinfo] } else { Seq::empty() };
    let s = if datetime { s.push(AppletKind::Datetime) } else { s };
    s.push(AppletKind::Heap)
}

/// Builds the registry of the configured applets.
pub fn build_registry(sysinfo: bool, datetime: bool) -> (r: AppletRegistry)
    ensures
        r.applets@.len() == registry_kinds(sysinfo, datetime).len(),
        forall|i: int|
            0 <= i < r.applets@.len() ==> #[trigger] r.applets@[i] == applet_of(registry_kinds(sysinfo, datetime)[i]),
{
    let mut v: Vec<Applet> = Vec::new();
    if sysinfo {
        v.push(applet(AppletKind::Sysinfo));
    }
    if datetime {
        v.push(applet(AppletKind::Datetime));
    }
    v.push(applet(AppletKind::Heap));
    AppletRegistry::new(v)
}

} // verus!
