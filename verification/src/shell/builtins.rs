//! The help text of the shell.
use vstd::prelude::*;
use vstd::string::StringSliceAdditionalSpecFns;
use crate::applets::{Applet, AppletRegistry};
use crate::text::{push_repeat, push_str, repeat};

verus! {

/// One line of the help: two spaces, the name padded to twelve, `- ` and
/// the description.
pub open spec fn cmd_line(name: &str, desc: &str) -> Seq<u8> {
    let n = name.spec_bytes();
    "  ".spec_bytes() + n + repeat(32, if n.len() < 12 { (12 - n.len()) as nat } else { 0 }) + "- ".spec_bytes()
        + desc.spec_bytes() + seq![10u8]
}

/// Appends the help line of `name`.
pub fn print_cmd(out: &mut Vec<u8>, name: &str, desc: &str)
    ensures
        final(out)@ == old(out)@ + cmd_line(name, desc),
{
    push_str(out, "  ");
    push_str(out, name);
    let n = name.as_bytes().len();
    let pad: usize = if n < 12 { 12 - n } else { 0 };
    push_repeat(out, 32, pad);
    push_str(out, "- ");
    push_str(out, desc);
    out.push(10);
    proof {
        assert(final(out)@ =~= old(out)@ + cmd_line(name, desc));
    }
}

/// The help lines of the first `k` applets of `s`.
pub open spec fn applet_lines(s: Seq<Applet>, k: int) -> Seq<u8>
    decreases k,
{
    if k <= 0 {
        Seq::empty()
    } else {
        applet_lines(s, k - 1) + cmd_line(s[k - 1].name, s[k - 1].description)
    }
}

/// The built-in commands part of the help.
pub open spec fn builtin_help() -> Seq<u8> {
    "Built-in commands:\n".spec_bytes() + cmd_line("echo", "Prints text") + cmd_line("cls", "Clears screen") + cmd_line(
        "banner",
        "Shows welcome banner",
    ) + cmd_line("history", "Shows command history") + cmd_line("ls", "List directory contents") + cmd_line(
        "out",
        "Display file contents",
    ) + cmd_line("mk", "Create files and directories") + cmd_line("rm", "Remove files and directories") + cmd_line(
        "cp",
        "Copy files and directories",
    ) + cmd_line("shutdown", "Shuts down the system") + cmd_line("help", "This message") + seq![10u8]
}

/// The help text: the built-in commands, then the registered applets when
/// there are any.
pub open spec fn help_text(applets: Seq<Applet>) -> Seq<u8> {
    builtin_help() + if applets.len() > 0 {
        "Applets:\n".spec_bytes() + applet_lines(applets, applets.len() as int)
    } else {
        Seq::empty()
    }
}

/// The help text for the shell with the applets of `registry`.
pub fn print_help(registry: &AppletRegistry) -> (r: Vec<u8>)
    ensures
        r@ == help_text(registry.applets@),
{
    let mut out: Vec<u8> = Vec::new();
    push_str(&mut out, "Built-in commands:\n");
    print_cmd(&mut out, "echo", "Prints text");
    print_cmd(&mut out, "cls", "Clears screen");
    print_cmd(&mut out, "banner", "Shows welcome banner");
    print_cmd(&mut out, "history", "Shows command history");
    print_cmd(&mut out, "ls", "List directory contents");
    print_cmd(&mut out, "out", "Display file contents");
    print_cmd(&mut out, "mk", "Create files and directories");
    print_cmd(&mut out, "rm", "Remove files and directories");
    print_cmd(&mut out, "cp", "Copy files and directories");
    print_cmd(&mut out, "shutdown", "Shuts down the system");
    print_cmd(&mut out, "help", "This message");
    out.push(10);
    proof {
        assert(out@ =~= builtin_help());
    }
    let list = registry.list();
    if list.len() > 0 {
        push_str(&mut out, "Applets:\n");
        let ghost head = out@;
        let mut i: usize = 0;
        while i < list.len()
            invariant
                i <= list@.len(),
                list@ == registry.applets@,
                out@ == head + applet_lines(list@, i as int),
            decreases list@.len() - i,
        {
            print_cmd(&mut out, list[i].name, list[i].description);
            i = i + 1;
            assert(out@ =~= head + applet_lines(list@, i as int));
        }
        proof {
            assert(out@ =~= help_text(registry.applets@));
        }
    } else {
        proof {
            assert(out@ =~= help_text(registry.applets@));
        }
    }
    out
}

} // verus!
