//! What happens when a hint is picked: the match goes to the paste buffer,
//! and the action of the modifier (copy, open, paste, a shell command, or
//! in jump mode the cursor move) becomes a command line to run.
use vstd::prelude::*;
use crate::config::{Config, path_join};
use crate::outside::{program_exists, push_char, user_home_dir};
use crate::text::{decimal, decimal_string, opt_view, str_chars, str_eq, string_views, to_string};
use crate::tmux::pane::{Pane, set_buffer, set_buffer_no_clipboard};

verus! {

/// Everything an action needs: the modifier and hint typed, the matched
/// text, the active pane (where pastes go) and the source pane (where the
/// match is), the match's line and column, the mode, the actions given on
/// the command line, and the configuration.
pub struct ActionRunner<'a> {
    pub modifier: &'a str,
    pub match_text: &'a str,
    pub hint: &'a str,
    pub active_pane: &'a Pane,
    pub source_pane: &'a Pane,
    pub offset: Option<(usize, usize)>,
    pub mode: &'a str,
    pub main_action: Option<&'a str>,
    pub ctrl_action: Option<&'a str>,
    pub alt_action: Option<&'a str>,
    pub shift_action: Option<&'a str>,
    pub config: &'a Config,
}

/// A command-line action, else the configured one.
pub open spec fn either(given: Option<&str>, configured: Seq<char>) -> Option<Seq<char>> {
    match given {
        Some(a) => Some(a@),
        None => Some(configured),
    }
}

/// The command of the copy action: the first clipboard tool found, when
/// the system clipboard is used.
pub open spec fn copy_choice(use_clipboard: bool, pbcopy: bool, wl_copy: bool, xclip: bool, xsel: bool) -> Option<
    Seq<char>,
> {
    if !use_clipboard {
        None
    } else if pbcopy {
        Some("pbcopy"@)
    } else if wl_copy {
        Some("wl-copy"@)
    } else if xclip {
        Some("xclip -selection clipboard"@)
    } else if xsel {
        Some("xsel -i --clipboard"@)
    } else {
        None
    }
}

/// The command of the open action: `xdg-open` or `open`, fed the match
/// through `xargs`.
pub open spec fn open_choice(xdg_open: bool, open: bool) -> Option<Seq<char>> {
    if xdg_open {
        Some("xargs xdg-open"@)
    } else if open {
        Some("xargs open"@)
    } else {
        None
    }
}

/// The copy command for the given tools.
pub fn copy_command_from(use_clipboard: bool, pbcopy: bool, wl_copy: bool, xclip: bool, xsel: bool) -> (res:
    Option<String>)
    ensures
        match res {
            Some(c) => copy_choice(use_clipboard, pbcopy, wl_copy, xclip, xsel) == Some(c@),
            None => copy_choice(use_clipboard, pbcopy, wl_copy, xclip, xsel) is None,
        },
{
    if !use_clipboard {
        None
    } else if pbcopy {
        Some(to_string("pbcopy"))
    } else if wl_copy {
        Some(to_string("wl-copy"))
    } else if xclip {
        Some(to_string("xclip -selection clipboard"))
    } else if xsel {
        Some(to_string("xsel -i --clipboard"))
    } else {
        None
    }
}

/// The open command for the given tools.
pub fn open_command_from(xdg_open: bool, open: bool) -> (res: Option<String>)
    ensures
        match res {
            Some(c) => open_choice(xdg_open, open) == Some(c@),
            None => open_choice(xdg_open, open) is None,
        },
{
    if xdg_open {
        Some(to_string("xargs xdg-open"))
    } else if open {
        Some(to_string("xargs open"))
    } else {
        None
    }
}

/// The text as it would be handed to the open action: a leading `~`
/// becomes the home directory (or stays `~` without one), and the rest,
/// without leading slashes, is joined to it.
pub open spec fn home_expanded(text: Seq<char>, home: Option<Seq<char>>) -> Seq<char> {
    let h = match home {
        Some(h) => h,
        None => "~"@,
    };
    let rest = crate::cmd::load_config::strip_leading(text, seq!['~']);
    if rest.len() == 0 {
        h
    } else {
        path_join(h, crate::cmd::load_config::strip_leading(rest, seq!['/']))
    }
}

/// A text with its leading `~` expanded against a home directory.
pub fn expand_home(text: &str, home: Option<String>) -> (res: String)
    ensures
        res@ == home_expanded(
            text@,
            match home {
                Some(h) => Some(h@),
                None => None,
            },
        ),
{
    let h = match home {
        Some(h) => h,
        None => to_string("~"),
    };
    let mut tilde = String::new();
    push_char(&mut tilde, '~');
    let mut slash = String::new();
    push_char(&mut slash, '/');
    proof {
        assert(tilde@ =~= seq!['~']);
        assert(slash@ =~= seq!['/']);
    }
    let rest = crate::cmd::load_config::strip_leading_str(text, tilde.as_str());
    if rest.as_str().unicode_len() == 0 {
        h
    } else {
        let tail = crate::cmd::load_config::strip_leading_str(rest.as_str(), slash.as_str());
        crate::config::join_path(h.as_str(), tail.as_str())
    }
}

/// Words of a shell command: split at spaces and tabs outside single and
/// double quotes, quotes dropped (a quote inside the other kind is kept).
/// The scan state: words so far, the current word, and whether a single or
/// double quote is open.
pub open spec fn split_scan(s: Seq<char>) -> (Seq<Seq<char>>, Seq<char>, bool, bool)
    decreases s.len(),
{
    if s.len() == 0 {
        (seq![], seq![], false, false)
    } else {
        let (parts, cur, sq, dq) = split_scan(s.drop_last());
        let c = s.last();
        if c == '\'' && !dq {
            (parts, cur, !sq, dq)
        } else if c == '"' && !sq {
            (parts, cur, sq, !dq)
        } else if (c == ' ' || c == '\t') && !sq && !dq {
            if cur.len() > 0 {
                (parts.push(cur), seq![], sq, dq)
            } else {
                (parts, cur, sq, dq)
            }
        } else {
            (parts, cur.push(c), sq, dq)
        }
    }
}

/// The words of a shell command.
pub open spec fn shell_words(s: Seq<char>) -> Seq<Seq<char>> {
    let (parts, cur, _, _) = split_scan(s);
    if cur.len() > 0 {
        parts.push(cur)
    } else {
        parts
    }
}

/// Splits a shell command into words at spaces and tabs outside quotes.
pub fn shell_split(s: &str) -> (res: Vec<String>)
    ensures
        string_views(res@) == shell_words(s@),
{
    let cs = str_chars(s);
    let mut parts: Vec<String> = Vec::new();
    let mut current = String::new();
    let mut in_single = false;
    let mut in_double = false;
    let mut i: usize = 0;
    while i < cs.len()
        invariant
            cs@ == s@,
            i <= cs.len(),
            (string_views(parts@), current@, in_single, in_double) == split_scan(s@.take(i as int)),
        decreases cs.len() - i,
    {
        proof {
            assert(s@.take(i + 1).drop_last() == s@.take(i as int));
            assert(s@.take(i + 1).last() == cs@[i as int]);
        }
        let c = cs[i];
        if c == '\'' && !in_double {
            in_single = !in_single;
        } else if c == '"' && !in_single {
            in_double = !in_double;
        } else if (c == ' ' || c == '\t') && !in_single && !in_double {
            if current.as_str().unicode_len() > 0 {
                let ghost before = parts@;
                let word = current;
                current = String::new();
                let ghost w = word@;
                parts.push(word);
                proof {
                    assert(string_views(parts@) =~= string_views(before).push(w));
                }
            }
        } else {
            push_char(&mut current, c);
        }
        i = i + 1;
    }
    proof {
        assert(s@.take(i as int) == s@);
    }
    if current.as_str().unicode_len() > 0 {
        let ghost before = parts@;
        let ghost w = current@;
        parts.push(current);
        proof {
            assert(string_views(parts@) =~= string_views(before).push(w));
        }
    }
    parts
}


/// What running an action does: the tmux arguments and input that load the
/// match into the paste buffer, and, when there is an action, the program
/// with its arguments, its input, environment and working directory.
pub struct ActionPlan {
    pub buffer_args: Vec<String>,
    pub buffer_input: String,
    pub command: Option<Vec<String>>,
    pub input: String,
    pub env: Vec<(String, String)>,
    pub cwd: Option<String>,
}

impl<'a> ActionRunner<'a> {
    /// The action of the modifier: the one given on the command line, else
    /// the configured one; none for an unknown modifier.
    pub open spec fn action_spec(&self) -> Option<Seq<char>> {
        if self.modifier@ == "main"@ {
            either(self.main_action, self.config.main_action@)
        } else if self.modifier@ == "shift"@ {
            either(self.shift_action, self.config.shift_action@)
        } else if self.modifier@ == "alt"@ {
            either(self.alt_action, self.config.alt_action@)
        } else if self.modifier@ == "ctrl"@ {
            either(self.ctrl_action, self.config.ctrl_action@)
        } else {
            None
        }
    }

    /// The paste command: into the active pane, leaving its mode first.
    pub open spec fn paste_spec(&self) -> Seq<char> {
        let id = self.active_pane.pane_id@;
        if self.active_pane.pane_in_mode {
            "tmux send-keys -t "@ + id + " -X cancel ; paste-buffer -t "@ + id
        } else {
            "tmux paste-buffer -t "@ + id
        }
    }

    /// The jump command: one tmux invocation that focuses the source pane,
    /// enters copy mode, goes to the top left, then down the match's line
    /// and right its column (each step left out when it is zero).
    pub open spec fn jump_spec(&self) -> Option<Seq<char>> {
        match self.offset {
            None => None,
            Some((line, col)) => {
                let src = self.source_pane.pane_id@;
                let base = "tmux select-pane -t "@ + src + " ; copy-mode -t "@ + src + " ; send-keys -t "@ + src
                    + " -X top-line ; send-keys -t "@ + src + " -X start-of-line"@;
                let down = if line > 0 {
                    " ; send-keys -t "@ + src + " -N "@ + decimal(line as nat) + " -X cursor-down"@
                } else {
                    seq![]
                };
                let right = if col > 0 {
                    " ; send-keys -t "@ + src + " -N "@ + decimal(col as nat) + " -X cursor-right"@
                } else {
                    seq![]
                };
                Some(base + down + right)
            },
        }
    }

    /// The command of the modifier's action, given what the copy and open
    /// actions resolve to.
    pub open spec fn command_spec(&self, copy: Option<Seq<char>>, open: Option<Seq<char>>) -> Option<Seq<char>> {
        match self.action_spec() {
            None => None,
            Some(a) => if a == ":copy:"@ {
                copy
            } else if a == ":open:"@ {
                open
            } else if a == ":paste:"@ {
                Some(self.paste_spec())
            } else {
                Some(a)
            },
        }
    }

    /// The text handed to the action, given the home directory: the match,
    /// with a leading `~` expanded for the open action.
    pub open spec fn expanded_spec(&self, home: Option<Seq<char>>) -> Seq<char> {
        if self.action_spec() == Some(":open:"@) && self.match_text@.len() > 0 && self.match_text@[0] == '~' {
            home_expanded(self.match_text@, home)
        } else {
            self.match_text@
        }
    }

    /// A command the action may resolve to, whichever tools are installed.
    pub open spec fn command_outcome(&self, c: Option<Seq<char>>) -> bool {
        if self.mode@ == "jump"@ {
            c == self.jump_spec()
        } else {
            exists|p: bool, w: bool, x: bool, s: bool, xo: bool, o: bool|
                c == #[trigger] self.command_spec(
                    copy_choice(self.config.use_system_clipboard, p, w, x, s),
                    #[trigger] open_choice(xo, o),
                )
        }
    }

    /// `plan` runs command `c` (when it has words) on text `e`.
    pub open spec fn planned(&self, plan: ActionPlan, c: Option<Seq<char>>, e: Seq<char>) -> bool {
        &&& if self.config.use_system_clipboard {
            string_views(plan.buffer_args@) == seq!["load-buffer"@, "-w"@, "-"@]
        } else {
            string_views(plan.buffer_args@) == seq!["load-buffer"@, "-"@]
        }
        &&& plan.buffer_input@ == self.match_text@
        &&& match plan.command {
            Some(words) => c is Some && c->0.len() > 0 && shell_words(c->0).len() > 0 && string_views(words@)
                == shell_words(c->0),
            None => c is None || c->0.len() == 0 || shell_words(c->0).len() == 0,
        }
        &&& plan.input@ == e
        &&& crate::config::pattern_views(plan.env@) == seq![
            ("MODIFIER"@, self.modifier@),
            ("HINT"@, self.hint@),
        ]
        &&& opt_view(plan.cwd) == if self.source_pane.pane_current_path@.len() == 0 {
            None
        } else {
            Some(self.source_pane.pane_current_path@)
        }
    }

    /// The action of the modifier.
    pub fn action(&self) -> (res: Option<&str>)
        ensures
            match res {
                Some(a) => self.action_spec() == Some(a@),
                None => self.action_spec() is None,
            },
    {
        if str_eq(self.modifier, "main") {
            match self.main_action {
                Some(a) => Some(a),
                None => Some(self.config.main_action.as_str()),
            }
        } else if str_eq(self.modifier, "shift") {
            match self.shift_action {
                Some(a) => Some(a),
                None => Some(self.config.shift_action.as_str()),
            }
        } else if str_eq(self.modifier, "alt") {
            match self.alt_action {
                Some(a) => Some(a),
                None => Some(self.config.alt_action.as_str()),
            }
        } else if str_eq(self.modifier, "ctrl") {
            match self.ctrl_action {
                Some(a) => Some(a),
                None => Some(self.config.ctrl_action.as_str()),
            }
        } else {
            None
        }
    }

    /// The paste command.
    pub fn paste_command(&self) -> (res: String)
        ensures
            res@ == self.paste_spec(),
    {
        let id = self.active_pane.pane_id.as_str();
        if self.active_pane.pane_in_mode {
            let mut s = to_string("tmux send-keys -t ");
            s.append(id);
            s.append(" -X cancel ; paste-buffer -t ");
            s.append(id);
            s
        } else {
            let mut s = to_string("tmux paste-buffer -t ");
            s.append(id);
            s
        }
    }

    /// The jump command, when the match has a position.
    pub fn jump_command(&self) -> (res: Option<String>)
        ensures
            opt_view(res) == self.jump_spec(),
    {
        let (line, col) = match self.offset {
            Some(o) => o,
            None => {
                return None;
            },
        };
        let src = self.source_pane.pane_id.as_str();
        let mut cmd = to_string("tmux select-pane -t ");
        cmd.append(src);
        cmd.append(" ; copy-mode -t ");
        cmd.append(src);
        cmd.append(" ; send-keys -t ");
        cmd.append(src);
        cmd.append(" -X top-line ; send-keys -t ");
        cmd.append(src);
        cmd.append(" -X start-of-line");
        let ghost base = cmd@;
        if line > 0 {
            cmd.append(" ; send-keys -t ");
            cmd.append(src);
            cmd.append(" -N ");
            let n = decimal_string(line);
            cmd.append(n.as_str());
            cmd.append(" -X cursor-down");
        }
        let ghost mid = cmd@;
        if col > 0 {
            cmd.append(" ; send-keys -t ");
            cmd.append(src);
            cmd.append(" -N ");
            let n = decimal_string(col);
            cmd.append(n.as_str());
            cmd.append(" -X cursor-right");
        }
        proof {
            assert(cmd@ =~= self.jump_spec()->0);
        }
        Some(cmd)
    }

    /// The copy command, with the clipboard tools that are installed.
    pub fn system_copy_command(&self) -> (res: Option<String>)
        ensures
            exists|p: bool, w: bool, x: bool, s: bool|
                opt_view(res) == #[trigger] copy_choice(self.config.use_system_clipboard, p, w, x, s),
    {
        if !self.config.use_system_clipboard {
            let r = copy_command_from(false, false, false, false, false);
            assert(opt_view(r) == copy_choice(self.config.use_system_clipboard, false, false, false, false));
            return r;
        }
        let p = program_exists("pbcopy");
        let w = program_exists("wl-copy");
        let x = program_exists("xclip");
        let s = program_exists("xsel");
        let r = copy_command_from(true, p, w, x, s);
        assert(opt_view(r) == copy_choice(self.config.use_system_clipboard, p, w, x, s));
        r
    }

    /// The open command, with the opener that is installed.
    pub fn system_open_command(&self) -> (res: Option<String>)
        ensures
            exists|xo: bool, o: bool| opt_view(res) == #[trigger] open_choice(xo, o),
    {
        let xo = program_exists("xdg-open");
        let o = program_exists("open");
        let r = open_command_from(xo, o);
        assert(opt_view(r) == open_choice(xo, o));
        r
    }

    /// The command of the modifier's action.
    pub fn action_command(&self) -> (res: Option<String>)
        ensures
            exists|p: bool, w: bool, x: bool, s: bool, xo: bool, o: bool|
                opt_view(res) == #[trigger] self.command_spec(
                    copy_choice(self.config.use_system_clipboard, p, w, x, s),
                    #[trigger] open_choice(xo, o),
                ),
    {
        let a = match self.action() {
            Some(a) => a,
            None => {
                assert(opt_view(None) == self.command_spec(
                    copy_choice(self.config.use_system_clipboard, false, false, false, false),
                    open_choice(false, false),
                ));
                return None;
            },
        };
        if str_eq(a, ":copy:") {
            let r = self.system_copy_command();
            let ghost (p, w, x, s) = choose|p: bool, w: bool, x: bool, s: bool|
                opt_view(r) == #[trigger] copy_choice(self.config.use_system_clipboard, p, w, x, s);
            assert(opt_view(r) == self.command_spec(
                copy_choice(self.config.use_system_clipboard, p, w, x, s),
                open_choice(false, false),
            ));
            r
        } else if str_eq(a, ":open:") {
            let r = self.system_open_command();
            let ghost (xo, o) = choose|xo: bool, o: bool| opt_view(r) == #[trigger] open_choice(xo, o);
            proof {
                reveal_strlit(":copy:");
                reveal_strlit(":open:");
                assert(":copy:"@ != ":open:"@) by {
                    assert(":copy:"@[1] != ":open:"@[1]);
                }
            }
            assert(opt_view(r) == self.command_spec(
                copy_choice(self.config.use_system_clipboard, false, false, false, false),
                open_choice(xo, o),
            ));
            r
        } else if str_eq(a, ":paste:") {
            let r = Some(self.paste_command());
            assert(opt_view(r) == self.command_spec(
                copy_choice(self.config.use_system_clipboard, false, false, false, false),
                open_choice(false, false),
            ));
            r
        } else {
            let r = Some(to_string(a));
            assert(opt_view(r) == self.command_spec(
                copy_choice(self.config.use_system_clipboard, false, false, false, false),
                open_choice(false, false),
            ));
            r
        }
    }

    /// The text handed to the action: the match, with a leading `~`
    /// expanded for the open action.
    pub fn expanded_match(&self) -> (res: String)
        ensures
            exists|h: Option<Seq<char>>| res@ == #[trigger] self.expanded_spec(h),
    {
        let is_open = match self.action() {
            Some(a) => str_eq(a, ":open:"),
            None => false,
        };
        let starts = self.match_text.unicode_len() > 0 && self.match_text.get_char(0) == '~';
        if is_open && starts {
            let home = user_home_dir();
            let ghost h = opt_view(home);
            let r = expand_home(self.match_text, home);
            assert(r@ == self.expanded_spec(h));
            r
        } else {
            let r = to_string(self.match_text);
            assert(r@ == self.expanded_spec(None));
            r
        }
    }

    /// The plan for running command `cmd` on text `expanded`.
    pub fn plan_for(&self, cmd: Option<String>, expanded: String) -> (res: ActionPlan)
        ensures
            self.planned(res, opt_view(cmd), expanded@),
    {
        let (buffer_args, buffer_input) = if self.config.use_system_clipboard {
            set_buffer(self.match_text)
        } else {
            set_buffer_no_clipboard(self.match_text)
        };
        let command = match cmd {
            Some(c) => {
                if c.as_str().unicode_len() == 0 {
                    None
                } else {
                    let parts = shell_split(c.as_str());
                    if parts.len() == 0 {
                        None
                    } else {
                        Some(parts)
                    }
                }
            },
            None => None,
        };
        let env = vec![(to_string("MODIFIER"), to_string(self.modifier)), (to_string("HINT"), to_string(self.hint))];
        proof {
            assert(crate::config::pattern_views(env@) =~= seq![
                ("MODIFIER"@, self.modifier@),
                ("HINT"@, self.hint@),
            ]);
        }
        let cwd = if self.source_pane.pane_current_path.as_str().unicode_len() == 0 {
            None
        } else {
            Some(self.source_pane.pane_current_path.clone())
        };
        ActionPlan { buffer_args, buffer_input, command, input: expanded, env, cwd }
    }

    /// What running the action does: load the match into the paste buffer,
    /// then, when the mode's command has words, run it on the (expanded)
    /// match, with `MODIFIER` and `HINT` set, in the source pane's
    /// directory.
    pub fn run(&self) -> (res: ActionPlan)
        ensures
            exists|c: Option<Seq<char>>, e: Seq<char>|
                self.command_outcome(c) && (exists|h: Option<Seq<char>>| e == #[trigger] self.expanded_spec(h))
                    && #[trigger] self.planned(res, c, e),
    {
        let cmd = if str_eq(self.mode, "jump") {
            self.jump_command()
        } else {
            self.action_command()
        };
        let ghost c = opt_view(cmd);
        let expanded = self.expanded_match();
        let ghost e = expanded@;
        let res = self.plan_for(cmd, expanded);
        assert(self.command_outcome(c));
        assert(self.planned(res, c, e));
        res
    }
}

} // verus!
