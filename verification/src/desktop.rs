//! The entry of the configuration window in the desktop's menu.

use crate::text;
use vstd::prelude::*;

verus! {

/// The contents of the desktop entry.
pub open spec fn entry_text(exec: Seq<char>, icon: Seq<char>) -> Seq<char> {
    "[Desktop Entry]\nVersion=1.0\nName=TH420 Display Config\nComment=CPU/GPU monitor configurator for Thermaltake TH420 V2 LCD\nExec="@
        + exec + "\nIcon="@ + icon
        + "\nType=Application\nCategories=System;Monitor;\nTerminal=false\nStartupNotify=true\nStartupWMClass=th420-config\n"@
}

/// The contents of the desktop entry for a program and an icon.
pub fn desktop_entry(exec: &str, icon: &str) -> (res: String)
    ensures
        res@ == entry_text(exec@, icon@),
{
    let mut res = "[Desktop Entry]\nVersion=1.0\nName=TH420 Display Config\nComment=CPU/GPU monitor configurator for Thermaltake TH420 V2 LCD\nExec=".to_string();
    res.append(exec);
    res.append("\nIcon=");
    res.append(icon);
    res.append(
        "\nType=Application\nCategories=System;Monitor;\nTerminal=false\nStartupNotify=true\nStartupWMClass=th420-config\n",
    );
    res
}

/// The entry starts the program and shows the icon it is written for.
pub proof fn law_entry_starts_program(exec: Seq<char>, icon: Seq<char>)
    ensures
        text::occurs(entry_text(exec, icon), "\nExec="@ + exec + "\n"@),
        text::occurs(entry_text(exec, icon), "\nIcon="@ + icon + "\n"@),
        text::starts_with(entry_text(exec, icon), "[Desktop Entry]\n"@),
{
    let s = entry_text(exec, icon);
    let head =
        "[Desktop Entry]\nVersion=1.0\nName=TH420 Display Config\nComment=CPU/GPU monitor configurator for Thermaltake TH420 V2 LCD\nExec="@;
    let tail =
        "\nType=Application\nCategories=System;Monitor;\nTerminal=false\nStartupNotify=true\nStartupWMClass=th420-config\n"@;
    reveal_strlit(
        "[Desktop Entry]\nVersion=1.0\nName=TH420 Display Config\nComment=CPU/GPU monitor configurator for Thermaltake TH420 V2 LCD\nExec=",
    );
    reveal_strlit(
        "\nType=Application\nCategories=System;Monitor;\nTerminal=false\nStartupNotify=true\nStartupWMClass=th420-config\n",
    );
    reveal_strlit("\nExec=");
    reveal_strlit("\nIcon=");
    reveal_strlit("\n");
    reveal_strlit("[Desktop Entry]\n");
    let a = "\nExec="@ + exec + "\n"@;
    let from = head.len() - 6;
    assert(s.subrange(from, from + a.len()) =~= a);
    assert(text::occurs_at(s, a, from));
    let b = "\nIcon="@ + icon + "\n"@;
    let at = (head.len() + exec.len()) as int;
    assert(s.subrange(at, at + b.len()) =~= b);
    assert(text::occurs_at(s, b, at));
    assert(s.take(16) =~= "[Desktop Entry]\n"@);
}

} // verus!
