use vstd::prelude::*;
use vstd::string::StringExecFns;
use crate::shell::{escape_for_shell, escaped};
use crate::survey::Observation;
use crate::text::push_char;

verus! {

/// The assignment `NAME=VALUE`, each side escaped for the shell.
pub open spec fn assignment(name: Seq<char>, value: Seq<char>) -> Seq<char> {
    escaped(name) + seq!['='] + escaped(value)
}

/// Assignments separated by single spaces.
pub open spec fn spaced(items: Seq<Seq<char>>) -> Seq<char>
    decreases items.len(),
{
    if items.len() == 0 {
        Seq::empty()
    } else if items.len() == 1 {
        items[0]
    } else {
        spaced(items.drop_last()) + seq![' '] + items.last()
    }
}

/// The variables that make toolkits pick X11 over Wayland.
pub open spec fn x11_overrides() -> Seq<Seq<char>> {
    seq![
        assignment("GDK_BACKEND"@, "x11"@),
        assignment("QT_QPA_PLATFORM"@, "xcb"@),
        assignment("CLUTTER_BACKEND"@, "x11"@),
        assignment("SDL_VIDEO_DRIVER"@, "x11"@),
        assignment("SDL_VIDEODRIVER"@, "x11"@),
        assignment("XDG_SESSION_TYPE"@, "x11"@),
        assignment("ELM_DISPLAY"@, "x11"@),
        assignment("WINIT_UNIX_BACKEND"@, "x11"@),
    ]
}

/// Shell variable assignments, in the order added, ready to be printed on
/// one line.
pub struct EnvList {
    envs: Vec<String>,
}

impl View for EnvList {
    type V = Seq<Seq<char>>;

    closed spec fn view(&self) -> Seq<Seq<char>> {
        self.envs@.map_values(|s: String| s@)
    }
}

impl EnvList {
    pub fn new() -> (r: EnvList)
        ensures
            r@ == Seq::<Seq<char>>::empty(),
    {
        let r = EnvList { envs: Vec::new() };
        assert(r@ =~= Seq::<Seq<char>>::empty());
        r
    }

    /// Appends the assignment of `value` to `name`, both escaped for the shell.
    pub fn add(&mut self, name: &str, value: &str)
        ensures
            final(self)@ == old(self)@.push(assignment(name@, value@)),
    {
        let mut line = escape_for_shell(name);
        push_char(&mut line, '=');
        let v = escape_for_shell(value);
        line.append(v.as_str());
        assert(line@ =~= assignment(name@, value@));
        let ghost before = self@;
        self.envs.push(line);
        assert(self@ =~= before.push(assignment(name@, value@)));
    }

    /// The assignments separated by single spaces, ending with a newline.
    pub fn render(&self) -> (r: String)
        ensures
            r@ == spaced(self@) + seq!['\n'],
    {
        let mut out = String::new();
        for i in 0..self.envs.len()
            invariant
                out@ == spaced(self@.take(i as int)),
        {
            proof {
                assert(self@.take(i + 1).drop_last() =~= self@.take(i as int));
            }
            if i != 0 {
                push_char(&mut out, ' ');
            } else {
                assert(out@ =~= Seq::<char>::empty());
            }
            out.append(self.envs[i].as_str());
            proof {
                if i == 0 {
                    assert(out@ =~= self@.take(1)[0]);
                } else {
                    assert(out@ =~= spaced(self@.take(i as int)) + seq![' '] + self@.take(i + 1).last());
                }
            }
        }
        proof {
            assert(self@.take(self@.len() as int) =~= self@);
        }
        push_char(&mut out, '\n');
        out
    }
}

/// Adds the variables that force X11 over Wayland, for a desktop that runs
/// a Wayland session beside the X server being looked for.
pub fn kill_wayland(env_list: &mut EnvList)
    ensures
        final(env_list)@ == old(env_list)@ + x11_overrides(),
{
    env_list.add("GDK_BACKEND", "x11");
    env_list.add("QT_QPA_PLATFORM", "xcb");
    env_list.add("CLUTTER_BACKEND", "x11");
    env_list.add("SDL_VIDEO_DRIVER", "x11");
    env_list.add("SDL_VIDEODRIVER", "x11");
    env_list.add("XDG_SESSION_TYPE", "x11");
    env_list.add("ELM_DISPLAY", "x11");
    env_list.add("WINIT_UNIX_BACKEND", "x11");
    assert(final(env_list)@ =~= old(env_list)@ + x11_overrides());
}


/// The assignments that point a shell at an observed display.
pub open spec fn exports_of(display: Seq<char>, xauthority: Option<Seq<char>>, force_x11: bool) -> Seq<
    Seq<char>,
> {
    let base = match xauthority {
        Some(x) => seq![assignment("DISPLAY"@, display), assignment("XAUTHORITY"@, x)],
        None => seq![assignment("DISPLAY"@, display)],
    };
    if force_x11 {
        base + x11_overrides()
    } else {
        base
    }
}

/// The assignments for the chosen display: `DISPLAY`, then `XAUTHORITY`
/// when the observation has one, then the X11 overrides when asked for.
pub fn exports_for(winner: &Observation, force_x11: bool) -> (r: EnvList)
    ensures
        r@ == exports_of(winner.display@, winner@.1, force_x11),
{
    let mut list = EnvList::new();
    list.add("DISPLAY", winner.display.as_str());
    if let Some(x) = &winner.xauthority {
        list.add("XAUTHORITY", x.as_str());
    }
    let ghost base = list@;
    if force_x11 {
        kill_wayland(&mut list);
    } else {
        assert(list@ == base);
    }
    assert(list@ =~= exports_of(winner.display@, winner@.1, force_x11));
    list
}

} // verus!
