//! Panes and windows as tmux reports them, and the tmux command lines that
//! query and change them.  Each function gives the arguments of one tmux
//! invocation; running it is left to the caller.
use vstd::prelude::*;
use crate::text::{decimal, decimal_string, is_space, is_space_char, str_chars, string_from, string_views, to_string, trail_count};

verus! {

/// The `-F` format under which tmux prints a pane as a JSON object.
pub const PANE_FMT: &'static str = r##"{"pane_id":"#{pane_id}","window_id":"#{window_id}","pane_width":#{pane_width},"pane_height":#{pane_height},"pane_left":#{pane_left},"pane_top":#{pane_top},"pane_current_path":"#{pane_current_path}","pane_in_mode":#{?pane_in_mode,true,false},"scroll_position":#{?scroll_position,#{scroll_position},null},"window_zoomed_flag":#{?window_zoomed_flag,true,false},"pane_tty":"#{pane_tty}"}"##;

/// The `-F` format under which tmux prints a new window as a JSON object.
pub const WINDOW_FMT: &'static str = r##"{"window_id":"#{window_id}","window_width":#{window_width},"window_height":#{window_height},"pane_id":"#{pane_id}","pane_tty":"#{pane_tty}"}"##;

/// A pane: its id, window, size and position, working directory, whether
/// it is in a mode (such as copy mode) and how far it is scrolled, whether
/// its window is zoomed, and its terminal.
pub struct Pane {
    pub pane_id: String,
    pub window_id: String,
    pub pane_width: u32,
    pub pane_height: u32,
    pub pane_left: u32,
    pub pane_top: u32,
    pub pane_current_path: String,
    pub pane_in_mode: bool,
    pub scroll_position: Option<i32>,
    pub window_zoomed_flag: bool,
    pub pane_tty: String,
}

/// Two panes hold the same values.
pub open spec fn same_pane(a: Pane, b: Pane) -> bool {
    &&& a.pane_id@ == b.pane_id@
    &&& a.window_id@ == b.window_id@
    &&& a.pane_width == b.pane_width
    &&& a.pane_height == b.pane_height
    &&& a.pane_left == b.pane_left
    &&& a.pane_top == b.pane_top
    &&& a.pane_current_path@ == b.pane_current_path@
    &&& a.pane_in_mode == b.pane_in_mode
    &&& a.scroll_position == b.scroll_position
    &&& a.window_zoomed_flag == b.window_zoomed_flag
    &&& a.pane_tty@ == b.pane_tty@
}

impl Pane {
    /// A copy of the pane.
    pub fn duplicate(&self) -> (res: Pane)
        ensures
            same_pane(res, *self),
    {
        Pane {
            pane_id: self.pane_id.clone(),
            window_id: self.window_id.clone(),
            pane_width: self.pane_width,
            pane_height: self.pane_height,
            pane_left: self.pane_left,
            pane_top: self.pane_top,
            pane_current_path: self.pane_current_path.clone(),
            pane_in_mode: self.pane_in_mode,
            scroll_position: self.scroll_position,
            window_zoomed_flag: self.window_zoomed_flag,
            pane_tty: self.pane_tty.clone(),
        }
    }
}

/// A window: its id and size, and its first pane and that pane's terminal.
pub struct Window {
    pub window_id: String,
    pub window_width: u32,
    pub window_height: u32,
    pub pane_id: String,
    pub pane_tty: String,
}

/// A signed number in decimal.
pub open spec fn signed_decimal(i: int) -> Seq<char> {
    if i < 0 {
        seq!['-'] + decimal((-i) as nat)
    } else {
        decimal(i as nat)
    }
}

/// An `i32` in decimal.
pub fn signed_decimal_string(i: i32) -> (res: String)
    ensures
        res@ == signed_decimal(i as int),
{
    if i < 0 {
        let m = 0i64 - (i as i64);
        let mut s = String::new();
        crate::outside::push_char(&mut s, '-');
        let digits = decimal_string(m as usize);
        s.append(digits.as_str());
        s
    } else {
        decimal_string(i as usize)
    }
}

/// Strings from a list of text pieces.
fn strings(parts: &[&str]) -> (res: Vec<String>)
    ensures
        res@.len() == parts@.len(),
        forall|i: int| 0 <= i < parts@.len() ==> (#[trigger] res@[i])@ == parts@[i]@,
{
    let mut out: Vec<String> = Vec::new();
    let mut i: usize = 0;
    while i < parts.len()
        invariant
            i <= parts@.len(),
            out@.len() == i,
            forall|k: int| 0 <= k < i ==> (#[trigger] out@[k])@ == parts@[k]@,
        decreases parts@.len() - i,
    {
        out.push(to_string(parts[i]));
        i = i + 1;
    }
    out
}

/// `list-panes` of a target, or of all panes, optionally filtered.
pub open spec fn list_panes_args(target: Option<Seq<char>>, filter: Option<Seq<char>>) -> Seq<Seq<char>> {
    let base = seq!["list-panes"@, "-F"@, PANE_FMT@];
    let with_target = match target {
        Some(t) => base + seq!["-t"@, t],
        None => base.push("-a"@),
    };
    match filter {
        Some(f) => with_target + seq!["-f"@, f],
        None => with_target,
    }
}

/// The arguments that list panes as JSON: those of a target, or all of
/// them, optionally filtered.
pub fn list_panes(target: Option<&str>, filter: Option<&str>) -> (res: Vec<String>)
    ensures
        string_views(res@) == list_panes_args(
            match target {
                Some(t) => Some(t@),
                None => None,
            },
            match filter {
                Some(f) => Some(f@),
                None => None,
            },
        ),
{
    let mut args = strings(&["list-panes", "-F", PANE_FMT]);
    let ghost a0 = args@;
    match target {
        Some(t) => {
            args.push(to_string("-t"));
            args.push(to_string(t));
        },
        None => {
            args.push(to_string("-a"));
        },
    }
    match filter {
        Some(f) => {
            args.push(to_string("-f"));
            args.push(to_string(f));
        },
        None => {},
    }
    proof {
        assert(string_views(a0) =~= seq!["list-panes"@, "-F"@, PANE_FMT@]);
        assert(string_views(args@) =~= list_panes_args(
            match target {
                Some(t) => Some(t@),
                None => None,
            },
            match filter {
                Some(f) => Some(f@),
                None => None,
            },
        ));
    }
    args
}

/// The arguments that list the panes of a window as JSON.
pub fn list_panes_in_window(window_id: &str) -> (res: Vec<String>)
    ensures
        string_views(res@) == seq!["list-panes"@, "-F"@, PANE_FMT@, "-t"@, window_id@],
{
    let v = strings(&["list-panes", "-F", PANE_FMT, "-t", window_id]);
    proof {
        assert(string_views(v@) =~= seq!["list-panes"@, "-F"@, PANE_FMT@, "-t"@, window_id@]);
    }
    v
}

/// The arguments that print one pane as JSON.
pub fn find_pane(id: &str) -> (res: Vec<String>)
    ensures
        string_views(res@) == seq!["display-message"@, "-t"@, id@, "-F"@, PANE_FMT@, "-p"@],
{
    let v = strings(&["display-message", "-t", id, "-F", PANE_FMT, "-p"]);
    proof {
        assert(string_views(v@) =~= seq!["display-message"@, "-t"@, id@, "-F"@, PANE_FMT@, "-p"@]);
    }
    v
}

/// The arguments that print the active pane of a window as JSON.
pub fn find_active_pane_in_window(window_id: &str) -> (res: Vec<String>)
    ensures
        string_views(res@) == seq![
            "list-panes"@,
            "-F"@,
            PANE_FMT@,
            "-t"@,
            window_id@,
            "-f"@,
            "#{pane_active}"@,
        ],
{
    let v = strings(&["list-panes", "-F", PANE_FMT, "-t", window_id, "-f", "#{pane_active}"]);
    proof {
        assert(string_views(v@) =~= seq![
            "list-panes"@,
            "-F"@,
            PANE_FMT@,
            "-t"@,
            window_id@,
            "-f"@,
            "#{pane_active}"@,
        ]);
    }
    v
}

/// The line range of a scrolled pane in copy mode can be written with
/// `i32` arithmetic.
pub open spec fn scroll_fits(p: Pane) -> bool {
    p.pane_in_mode && p.scroll_position is Some ==> {
        let s = p.scroll_position->0 as int;
        &&& s > i32::MIN
        &&& p.pane_height <= i32::MAX
        &&& i32::MIN <= p.pane_height - s - 1
        &&& p.pane_height - s <= i32::MAX
    }
}

/// `capture-pane` of a pane: for a scrolled pane in a mode, the lines on
/// screen (from `-scroll` to `height - scroll - 1`); `-J` joins wrapped
/// lines.
pub open spec fn capture_args(p: Pane, join: bool) -> Seq<Seq<char>> {
    let base = if p.pane_in_mode && p.scroll_position is Some {
        let s = p.scroll_position->0 as int;
        seq![
            "capture-pane"@,
            "-p"@,
            "-t"@,
            p.pane_id@,
            "-S"@,
            signed_decimal(-s),
            "-E"@,
            signed_decimal(p.pane_height - s - 1),
        ]
    } else {
        seq!["capture-pane"@, "-p"@, "-t"@, p.pane_id@]
    };
    if join {
        base.insert(2, "-J"@)
    } else {
        base
    }
}

/// The arguments that print a pane's content.
pub fn capture_pane(pane: &Pane, join: bool) -> (res: Vec<String>)
    requires
        scroll_fits(*pane),
    ensures
        string_views(res@) == capture_args(*pane, join),
{
    let mut args: Vec<String>;
    let scrolled = if pane.pane_in_mode {
        pane.scroll_position
    } else {
        None
    };
    match scrolled {
        Some(scroll) => {
            assert(pane.pane_in_mode && pane.scroll_position == Some(scroll));
            let h: i32 = pane.pane_height as i32;
            assert(h == pane.pane_height);
            let start = signed_decimal_string(-scroll);
            let end = signed_decimal_string(h - scroll - 1);
            args = strings(&["capture-pane", "-p", "-t", pane.pane_id.as_str(), "-S"]);
            args.push(start);
            args.push(to_string("-E"));
            args.push(end);
        },
        None => {
            args = strings(&["capture-pane", "-p", "-t", pane.pane_id.as_str()]);
        },
    }
    let ghost a0 = args@;
    if join {
        args.insert(2, to_string("-J"));
    }
    proof {
        assert(string_views(args@) =~= capture_args(*pane, join));
    }
    args
}


/// Ends a list of strings, checked against text pieces.
proof fn lemma_strings(res: Seq<String>, parts: Seq<Seq<char>>)
    requires
        res.len() == parts.len(),
        forall|i: int| 0 <= i < parts.len() ==> (#[trigger] res[i])@ == parts[i],
    ensures
        string_views(res) == parts,
{
    assert(string_views(res) =~= parts);
}

/// The arguments that open a detached window named `name` running `cmd`
/// in the current directory, printing it as JSON.
pub fn create_window(name: &str, cmd: &str) -> (res: Vec<String>)
    ensures
        string_views(res@) == seq![
            "new-window"@,
            "-c"@,
            "#{pane_current_path}"@,
            "-P"@,
            "-d"@,
            "-n"@,
            name@,
            "-F"@,
            WINDOW_FMT@,
            cmd@,
        ],
{
    let v = strings(&["new-window", "-c", "#{pane_current_path}", "-P", "-d", "-n", name, "-F", WINDOW_FMT, cmd]);
    proof {
        lemma_strings(
            v@,
            seq![
                "new-window"@,
                "-c"@,
                "#{pane_current_path}"@,
                "-P"@,
                "-d"@,
                "-n"@,
                name@,
                "-F"@,
                WINDOW_FMT@,
                cmd@,
            ],
        );
    }
    v
}

/// The arguments that split a window, detached, running `cat`, printing
/// the new pane as JSON.
pub fn split_window(window_id: &str) -> (res: Vec<String>)
    ensures
        string_views(res@) == seq!["split-window"@, "-t"@, window_id@, "-d"@, "-P"@, "-F"@, PANE_FMT@, "cat"@],
{
    let v = strings(&["split-window", "-t", window_id, "-d", "-P", "-F", PANE_FMT, "cat"]);
    proof {
        lemma_strings(v@, seq!["split-window"@, "-t"@, window_id@, "-d"@, "-P"@, "-F"@, PANE_FMT@, "cat"@]);
    }
    v
}

/// One `swap-pane` command: `-d` keeps the focus, `-Z` keeps the zoom.
pub open spec fn swap_command(src: Seq<char>, dst: Seq<char>, zoomed: bool) -> Seq<Seq<char>> {
    if zoomed {
        seq!["swap-pane"@, "-d"@, "-Z"@, "-s"@, src, "-t"@, dst]
    } else {
        seq!["swap-pane"@, "-d"@, "-s"@, src, "-t"@, dst]
    }
}

/// The arguments that swap two panes.
pub fn swap_panes(src: &str, dst: &str, zoomed: bool) -> (res: Vec<String>)
    ensures
        string_views(res@) == swap_command(src@, dst@, zoomed),
{
    if zoomed {
        let v = strings(&["swap-pane", "-d", "-Z", "-s", src, "-t", dst]);
        proof {
            lemma_strings(v@, swap_command(src@, dst@, zoomed));
        }
        v
    } else {
        let v = strings(&["swap-pane", "-d", "-s", src, "-t", dst]);
        proof {
            lemma_strings(v@, swap_command(src@, dst@, zoomed));
        }
        v
    }
}

/// Commands run in one tmux invocation, separated by `;` arguments.
pub open spec fn batch(cmds: Seq<Seq<Seq<char>>>) -> Seq<Seq<char>>
    decreases cmds.len(),
{
    if cmds.len() == 0 {
        seq![]
    } else if cmds.len() == 1 {
        cmds[0]
    } else {
        batch(cmds.drop_last()) + seq![";"@] + cmds.last()
    }
}

/// The swaps in one invocation: none for no swaps, the plain command for
/// one.
pub open spec fn swap_batch(swaps: Seq<(Seq<char>, Seq<char>)>, zoomed: bool) -> Option<Seq<Seq<char>>> {
    if swaps.len() == 0 {
        None
    } else {
        Some(batch(swaps.map_values(|p: (Seq<char>, Seq<char>)| swap_command(p.0, p.1, zoomed))))
    }
}

/// The arguments that run several swaps in one tmux invocation; none when
/// there is nothing to swap.
pub fn swap_panes_batch(swaps: &Vec<(String, String)>, zoomed: bool) -> (res: Option<Vec<String>>)
    ensures
        match res {
            Some(a) => swap_batch(crate::config::pattern_views(swaps@), zoomed) == Some(string_views(a@)),
            None => swap_batch(crate::config::pattern_views(swaps@), zoomed) is None,
        },
{
    let ghost sv = crate::config::pattern_views(swaps@);
    let ghost cmds = sv.map_values(|p: (Seq<char>, Seq<char>)| swap_command(p.0, p.1, zoomed));
    if swaps.len() == 0 {
        return None;
    }
    let mut args: Vec<String> = Vec::new();
    let mut i: usize = 0;
    while i < swaps.len()
        invariant
            sv == crate::config::pattern_views(swaps@),
            cmds == sv.map_values(|p: (Seq<char>, Seq<char>)| swap_command(p.0, p.1, zoomed)),
            i <= swaps.len(),
            string_views(args@) == batch(cmds.take(i as int)),
        decreases swaps.len() - i,
    {
        proof {
            assert(cmds.take(i + 1).drop_last() == cmds.take(i as int));
            assert(cmds.take(i + 1).last() == swap_command(swaps@[i as int].0@, swaps@[i as int].1@, zoomed));
        }
        let ghost before = args@;
        if i > 0 {
            args.push(to_string(";"));
        }
        let mut one = swap_panes(swaps[i].0.as_str(), swaps[i].1.as_str(), zoomed);
        args.append(&mut one);
        proof {
            if i == 0 {
                assert(cmds.take(1) =~= seq![cmds[0]]);
                assert(string_views(args@) =~= batch(cmds.take(1)));
            } else {
                assert(string_views(args@) =~= batch(cmds.take(i as int)) + seq![";"@] + cmds[i as int]);
            }
        }
        i = i + 1;
    }
    proof {
        assert(cmds.take(i as int) == cmds);
    }
    Some(args)
}

/// The arguments that kill a pane.
pub fn kill_pane(id: &str) -> (res: Vec<String>)
    ensures
        string_views(res@) == seq!["kill-pane"@, "-t"@, id@],
{
    let v = strings(&["kill-pane", "-t", id]);
    proof {
        lemma_strings(v@, seq!["kill-pane"@, "-t"@, id@]);
    }
    v
}

/// The arguments that kill a window.
pub fn kill_window(id: &str) -> (res: Vec<String>)
    ensures
        string_views(res@) == seq!["kill-window"@, "-t"@, id@],
{
    let v = strings(&["kill-window", "-t", id]);
    proof {
        lemma_strings(v@, seq!["kill-window"@, "-t"@, id@]);
    }
    v
}

/// The arguments that resize a window.
pub fn resize_window(window_id: &str, w: u32, h: u32) -> (res: Vec<String>)
    ensures
        string_views(res@) == seq![
            "resize-window"@,
            "-t"@,
            window_id@,
            "-x"@,
            decimal(w as nat),
            "-y"@,
            decimal(h as nat),
        ],
{
    let ws = decimal_string(w as usize);
    let hs = decimal_string(h as usize);
    let v = strings(&["resize-window", "-t", window_id, "-x", ws.as_str(), "-y", hs.as_str()]);
    proof {
        lemma_strings(
            v@,
            seq!["resize-window"@, "-t"@, window_id@, "-x"@, decimal(w as nat), "-y"@, decimal(h as nat)],
        );
    }
    v
}

/// The arguments that print a window's layout.
pub fn window_layout(window_id: &str) -> (res: Vec<String>)
    ensures
        string_views(res@) == seq!["display-message"@, "-t"@, window_id@, "-p"@, "#{window_layout}"@],
{
    let v = strings(&["display-message", "-t", window_id, "-p", "#{window_layout}"]);
    proof {
        lemma_strings(v@, seq!["display-message"@, "-t"@, window_id@, "-p"@, "#{window_layout}"@]);
    }
    v
}

/// The arguments that give a window a layout.
pub fn select_layout(window_id: &str, layout: &str) -> (res: Vec<String>)
    ensures
        string_views(res@) == seq!["select-layout"@, "-t"@, window_id@, layout@],
{
    let v = strings(&["select-layout", "-t", window_id, layout]);
    proof {
        lemma_strings(v@, seq!["select-layout"@, "-t"@, window_id@, layout@]);
    }
    v
}

/// One `resize-pane` command.
pub open spec fn resize_command(pane_id: Seq<char>, w: u32, h: u32) -> Seq<Seq<char>> {
    seq!["resize-pane"@, "-t"@, pane_id, "-x"@, decimal(w as nat), "-y"@, decimal(h as nat)]
}

/// The arguments that resize a pane.
pub fn resize_pane(pane_id: &str, w: u32, h: u32) -> (res: Vec<String>)
    ensures
        string_views(res@) == resize_command(pane_id@, w, h),
{
    let ws = decimal_string(w as usize);
    let hs = decimal_string(h as usize);
    let v = strings(&["resize-pane", "-t", pane_id, "-x", ws.as_str(), "-y", hs.as_str()]);
    proof {
        lemma_strings(v@, resize_command(pane_id@, w, h));
    }
    v
}

/// The arguments that run several pane resizes in one tmux invocation;
/// none when there is nothing to resize.
pub fn resize_pane_batch(resizes: &Vec<(String, u32, u32)>) -> (res: Option<Vec<String>>)
    ensures
        match res {
            Some(a) => resizes@.len() > 0 && string_views(a@) == batch(
                resizes@.map_values(|r: (String, u32, u32)| resize_command(r.0@, r.1, r.2)),
            ),
            None => resizes@.len() == 0,
        },
{
    let ghost cmds = resizes@.map_values(|r: (String, u32, u32)| resize_command(r.0@, r.1, r.2));
    if resizes.len() == 0 {
        return None;
    }
    let mut args: Vec<String> = Vec::new();
    let mut i: usize = 0;
    while i < resizes.len()
        invariant
            cmds == resizes@.map_values(|r: (String, u32, u32)| resize_command(r.0@, r.1, r.2)),
            i <= resizes.len(),
            string_views(args@) == batch(cmds.take(i as int)),
        decreases resizes.len() - i,
    {
        proof {
            assert(cmds.take(i + 1).drop_last() == cmds.take(i as int));
            assert(cmds.take(i + 1).last() == cmds[i as int]);
        }
        if i > 0 {
            args.push(to_string(";"));
        }
        let mut one = resize_pane(resizes[i].0.as_str(), resizes[i].1, resizes[i].2);
        args.append(&mut one);
        proof {
            if i == 0 {
                assert(cmds.take(1) =~= seq![cmds[0]]);
                assert(string_views(args@) =~= batch(cmds.take(1)));
            } else {
                assert(string_views(args@) =~= batch(cmds.take(i as int)) + seq![";"@] + cmds[i as int]);
            }
        }
        i = i + 1;
    }
    proof {
        assert(cmds.take(i as int) == cmds);
    }
    Some(args)
}

/// `select-pane` of a pane; `-Z` keeps the zoom.
pub open spec fn select_command(id: Seq<char>, zoomed: bool) -> Seq<Seq<char>> {
    if zoomed {
        seq!["select-pane"@, "-Z"@, "-t"@, id]
    } else {
        seq!["select-pane"@, "-t"@, id]
    }
}

/// The arguments that focus a pane.
pub fn select_pane(id: &str, zoomed: bool) -> (res: Vec<String>)
    ensures
        string_views(res@) == select_command(id@, zoomed),
{
    if zoomed {
        let v = strings(&["select-pane", "-Z", "-t", id]);
        proof {
            lemma_strings(v@, seq!["select-pane"@, "-Z"@, "-t"@, id@]);
        }
        v
    } else {
        let v = strings(&["select-pane", "-t", id]);
        proof {
            lemma_strings(v@, seq!["select-pane"@, "-t"@, id@]);
        }
        v
    }
}

/// The arguments that zoom a pane, or unzoom it.
pub fn zoom_pane(id: &str) -> (res: Vec<String>)
    ensures
        string_views(res@) == seq!["resize-pane"@, "-Z"@, "-t"@, id@],
{
    let v = strings(&["resize-pane", "-Z", "-t", id]);
    proof {
        lemma_strings(v@, seq!["resize-pane"@, "-Z"@, "-t"@, id@]);
    }
    v
}

/// The arguments, and the input, that load a value into the paste buffer
/// and the system clipboard (`-w`).
pub fn set_buffer(value: &str) -> (res: (Vec<String>, String))
    ensures
        string_views(res.0@) == seq!["load-buffer"@, "-w"@, "-"@],
        res.1@ == value@,
{
    let v = strings(&["load-buffer", "-w", "-"]);
    proof {
        lemma_strings(v@, seq!["load-buffer"@, "-w"@, "-"@]);
    }
    (v, to_string(value))
}

/// The arguments, and the input, that load a value into the paste buffer
/// only.
pub fn set_buffer_no_clipboard(value: &str) -> (res: (Vec<String>, String))
    ensures
        string_views(res.0@) == seq!["load-buffer"@, "-"@],
        res.1@ == value@,
{
    let v = strings(&["load-buffer", "-"]);
    proof {
        lemma_strings(v@, seq!["load-buffer"@, "-"@]);
    }
    (v, to_string(value))
}

/// The arguments that set a global option.
pub fn set_global_option(name: &str, value: &str) -> (res: Vec<String>)
    ensures
        string_views(res@) == seq!["set-option"@, "-g"@, name@, value@],
{
    let v = strings(&["set-option", "-g", name, value]);
    proof {
        lemma_strings(v@, seq!["set-option"@, "-g"@, name@, value@]);
    }
    v
}

/// The arguments that print a global option's value.
pub fn get_global_option(name: &str) -> (res: Vec<String>)
    ensures
        string_views(res@) == seq!["show"@, "-gqv"@, name@],
{
    let v = strings(&["show", "-gqv", name]);
    proof {
        lemma_strings(v@, seq!["show"@, "-gqv"@, name@]);
    }
    v
}

/// The two commands that switch the window and the client to a key table.
pub fn set_key_table(table: &str) -> (res: Vec<Vec<String>>)
    ensures
        res@.len() == 2,
        string_views(res@[0]@) == seq!["set-window-option"@, "key-table"@, table@],
        string_views(res@[1]@) == seq!["switch-client"@, "-T"@, table@],
{
    let a = strings(&["set-window-option", "key-table", table]);
    let b = strings(&["switch-client", "-T", table]);
    proof {
        lemma_strings(a@, seq!["set-window-option"@, "key-table"@, table@]);
        lemma_strings(b@, seq!["switch-client"@, "-T"@, table@]);
    }
    vec![a, b]
}

/// The two commands that turn both prefix keys off.
pub fn disable_prefix() -> (res: Vec<Vec<String>>)
    ensures
        res@.len() == 2,
        string_views(res@[0]@) == seq!["set-option"@, "-g"@, "prefix"@, "None"@],
        string_views(res@[1]@) == seq!["set-option"@, "-g"@, "prefix2"@, "None"@],
{
    vec![set_global_option("prefix", "None"), set_global_option("prefix2", "None")]
}

/// The arguments that show a message for `delay_ms` milliseconds.
pub fn display_message(msg: &str, delay_ms: u32) -> (res: Vec<String>)
    ensures
        string_views(res@) == seq!["display-message"@, "-d"@, decimal(delay_ms as nat), msg@],
{
    let d = decimal_string(delay_ms as usize);
    let v = strings(&["display-message", "-d", d.as_str(), msg]);
    proof {
        lemma_strings(v@, seq!["display-message"@, "-d"@, decimal(delay_ms as nat), msg@]);
    }
    v
}

/// The last whitespace-separated word of a text, if any.
pub open spec fn last_word(s: Seq<char>) -> Seq<char> {
    let t = s.take(s.len() - trail_count(s, |c: char| is_space(c)));
    t.skip(t.len() - trail_count(t, |c: char| !is_space(c)))
}

/// The version in the output of `tmux -V` (its last word), or `3.1` when
/// the output has no word.
pub fn tmux_version(output: &str) -> (res: String)
    ensures
        res@ == if last_word(output@).len() == 0 {
            "3.1"@
        } else {
            last_word(output@)
        },
{
    let cs = str_chars(output);
    let ghost sp = |c: char| is_space(c);
    let ghost nsp = |c: char| !is_space(c);
    let mut b: usize = cs.len();
    while b > 0 && is_space_char(cs[b - 1])
        invariant
            cs@ == output@,
            b <= cs.len(),
            sp == (|c: char| is_space(c)),
            forall|k: int| b <= k < cs.len() ==> sp(#[trigger] cs@[k]),
        decreases b,
    {
        b = b - 1;
    }
    let mut a: usize = b;
    while a > 0 && !is_space_char(cs[a - 1])
        invariant
            cs@ == output@,
            a <= b <= cs.len(),
            nsp == (|c: char| !is_space(c)),
            forall|k: int| a <= k < b ==> nsp(#[trigger] cs@[k]),
        decreases a,
    {
        a = a - 1;
    }
    proof {
        crate::text::lemma_trail_count_is(output@, sp, (cs.len() - b) as int);
        let t = output@.take(b as int);
        assert forall|k: int| t.len() - (b - a) <= k < t.len() implies nsp(#[trigger] t[k]) by {
            assert(t[k] == cs@[k]);
        }
        if a > 0 {
            assert(t[t.len() - (b - a) - 1] == cs@[a - 1]);
        }
        crate::text::lemma_trail_count_is(t, nsp, (b - a) as int);
        assert(t.skip(a as int) =~= cs@.subrange(a as int, b as int));
    }
    if a == b {
        to_string("3.1")
    } else {
        string_from(cs.as_slice(), a, b)
    }
}

} // verus!
