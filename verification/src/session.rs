//! What announcing the compositor's session to the user's service manager
//! consists of: the environment to export and the commands to run, so that
//! services waiting on the graphical session start (and stop again on
//! exit). Running the commands is left to the caller.

use vstd::prelude::*;
use crate::text::string_views;

verus! {

/// A program to run and its arguments.
#[derive(Debug, Clone)]
pub struct SessionCommand {
    pub program: String,
    pub args: Vec<String>,
}

pub open spec fn command_view(c: SessionCommand) -> (Seq<char>, Seq<Seq<char>>) {
    (c.program@, string_views(c.args@))
}

/// The variables exported to the service manager.
pub open spec fn session_vars() -> Seq<Seq<char>> {
    seq!["WAYLAND_DISPLAY"@, "XDG_CURRENT_DESKTOP"@, "XDG_SESSION_TYPE"@]
}

fn strings(items: Vec<&str>) -> (r: Vec<String>)
    ensures
        string_views(r@) == items@.map_values(|s: &str| s@),
{
    let mut r: Vec<String> = Vec::new();
    for i in 0..items.len()
        invariant
            string_views(r@) == items@.take(i as int).map_values(|s: &str| s@),
    {
        let ghost before = r@;
        r.push(items[i].to_owned());
        assert(string_views(r@) =~= string_views(before).push(items@[i as int]@));
        assert(items@.take(i + 1).map_values(|s: &str| s@) =~= items@.take(i as int).map_values(|s: &str| s@).push(
            items@[i as int]@,
        ));
    }
    assert(items@.take(items@.len() as int) == items@);
    r
}

fn command(program: &str, args: Vec<&str>) -> (r: SessionCommand)
    ensures
        command_view(r) == (program@, args@.map_values(|s: &str| s@)),
{
    SessionCommand { program: program.to_owned(), args: strings(args) }
}

/// The environment the session announces: the Wayland socket, if known,
/// the desktop's name and the session type.
pub fn session_environment(socket_name: Option<&str>) -> (r: Vec<(String, String)>)
    ensures
        r@.map_values(|p: (String, String)| (p.0@, p.1@)) == match socket_name {
            Some(s) => seq![("WAYLAND_DISPLAY"@, s@)],
            None => Seq::<(Seq<char>, Seq<char>)>::empty(),
        } + seq![("XDG_CURRENT_DESKTOP"@, "ironland-copositor"@), ("XDG_SESSION_TYPE"@, "wayland"@)],
{
    let mut r: Vec<(String, String)> = Vec::new();
    match socket_name {
        Some(s) => r.push(("WAYLAND_DISPLAY".to_owned(), s.to_owned())),
        None => {},
    }
    r.push(("XDG_CURRENT_DESKTOP".to_owned(), "ironland-copositor".to_owned()));
    r.push(("XDG_SESSION_TYPE".to_owned(), "wayland".to_owned()));
    assert(r@.map_values(|p: (String, String)| (p.0@, p.1@)) =~= match socket_name {
        Some(s) => seq![("WAYLAND_DISPLAY"@, s@)],
        None => Seq::<(Seq<char>, Seq<char>)>::empty(),
    } + seq![("XDG_CURRENT_DESKTOP"@, "ironland-copositor"@), ("XDG_SESSION_TYPE"@, "wayland"@)]);
    r
}

/// The commands that start the session: export the environment to the
/// service manager and to the message bus, then start the target that
/// stands in for a display manager's graphical session (absent, and
/// harmless, outside NixOS).
pub fn session_start_commands() -> (r: Vec<SessionCommand>)
    ensures
        r@.map_values(|c: SessionCommand| command_view(c)) == seq![
            ("systemctl"@, seq!["--user"@, "import-environment"@] + session_vars()),
            ("dbus-update-activation-environment"@, seq!["--systemd"@] + session_vars()),
            ("systemctl"@, seq!["--user"@, "start"@, "nixos-fake-graphical-session.target"@]),
        ],
{
    let mut r: Vec<SessionCommand> = Vec::new();
    let a1 = vec!["--user", "import-environment", "WAYLAND_DISPLAY", "XDG_CURRENT_DESKTOP", "XDG_SESSION_TYPE"];
    assert(a1@.map_values(|s: &str| s@) =~= seq![
        "--user"@,
        "import-environment"@,
        "WAYLAND_DISPLAY"@,
        "XDG_CURRENT_DESKTOP"@,
        "XDG_SESSION_TYPE"@,
    ]);
    let c1 = command("systemctl", a1);
    let a2 = vec!["--systemd", "WAYLAND_DISPLAY", "XDG_CURRENT_DESKTOP", "XDG_SESSION_TYPE"];
    assert(a2@.map_values(|s: &str| s@) =~= seq!["--systemd"@, "WAYLAND_DISPLAY"@, "XDG_CURRENT_DESKTOP"@, "XDG_SESSION_TYPE"@]);
    let c2 = command("dbus-update-activation-environment", a2);
    let a3 = vec!["--user", "start", "nixos-fake-graphical-session.target"];
    assert(a3@.map_values(|s: &str| s@) =~= seq!["--user"@, "start"@, "nixos-fake-graphical-session.target"@]);
    let c3 = command("systemctl", a3);
    r.push(c1);
    r.push(c2);
    r.push(c3);
    proof {
        assert(seq!["--user"@, "import-environment"@] + session_vars() =~= seq![
            "--user"@,
            "import-environment"@,
            "WAYLAND_DISPLAY"@,
            "XDG_CURRENT_DESKTOP"@,
            "XDG_SESSION_TYPE"@,
        ]);
        assert(seq!["--systemd"@] + session_vars() =~= seq![
            "--systemd"@,
            "WAYLAND_DISPLAY"@,
            "XDG_CURRENT_DESKTOP"@,
            "XDG_SESSION_TYPE"@,
        ]);
    }
    assert(r@.map_values(|c: SessionCommand| command_view(c)) =~= seq![
        ("systemctl"@, seq!["--user"@, "import-environment"@] + session_vars()),
        ("dbus-update-activation-environment"@, seq!["--systemd"@] + session_vars()),
        ("systemctl"@, seq!["--user"@, "start"@, "nixos-fake-graphical-session.target"@]),
    ]);
    r
}

/// The command that ends the session, stopping the services that waited
/// on it.
pub fn announce_session_end() -> (r: SessionCommand)
    ensures
        command_view(r) == ("systemctl"@, seq!["--user"@, "stop"@, "graphical-session.target"@]),
{
    let a = vec!["--user", "stop", "graphical-session.target"];
    assert(a@.map_values(|s: &str| s@) =~= seq!["--user"@, "stop"@, "graphical-session.target"@]);
    command("systemctl", a)
}

} // verus!
