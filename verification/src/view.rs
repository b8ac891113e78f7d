//! The input state machine of a hint session: each message from the key
//! bindings changes the state and may ask for the overlays to be drawn
//! again.
use vstd::prelude::*;
use crate::hinter::{Hinter, TargetView};
use crate::hinter::assign::target_views;
use crate::hinter::laws::prefix_free_table;
use crate::table::{assoc_find, lemma_assoc_find_props};
use crate::state::{State, StateModel};
use crate::text::{
    join, join_strings, lemma_split_once_at, lemma_split_once_none, split_once, split_once_char, str_eq,
    string_views, to_string,
};

verus! {

/// A hint session: the hinter, the state, and the mode (`"jump"` turns
/// multi-select off).
pub struct SessionView {
    pub hinter: Hinter,
    pub state: State,
    pub mode: String,
}

/// The fields of a message: up to three, cut at its first two colons.
pub open spec fn message_fields(msg: Seq<char>) -> Seq<Seq<char>> {
    match split_once(msg, ':') {
        None => seq![msg],
        Some((head, rest)) => match split_once(rest, ':') {
            None => seq![head, rest],
            Some((second, third)) => seq![head, second, third],
        },
    }
}

/// A hint key: the key joins the typed input, and the modifier is kept.
/// When the input is a hint, its target is picked: in multi-select mode
/// its text is collected, the hint marked and the input cleared, then the
/// overlays drawn again; otherwise its text is the result and the session
/// ends.  When it is no hint, the overlays are drawn again.
pub open spec fn hint_step(
    st: StateModel,
    key: Seq<char>,
    modifier: Seq<char>,
    targets: Seq<(Seq<char>, TargetView)>,
) -> (StateModel, bool) {
    let input = st.input + key;
    let i = assoc_find(targets, input);
    if i >= 0 {
        let t = targets[i].1;
        if st.multi_mode {
            (
                StateModel {
                    input: seq![],
                    modifier,
                    selected_hints: st.selected_hints.push(input),
                    multi_matches: st.multi_matches.push(t.0),
                    matched_target: Some(t),
                    ..st
                },
                true,
            )
        } else {
            (StateModel { input, modifier, result: t.0, exiting: true, matched_target: Some(t), ..st }, false)
        }
    } else {
        (StateModel { input, modifier, ..st }, true)
    }
}

/// Tab: outside jump mode, switches multi-select mode; switching it off
/// ends the session with the collected texts, joined by spaces, as result.
pub open spec fn toggle_step(st: StateModel, mode: Seq<char>) -> StateModel {
    if mode == "jump"@ {
        st
    } else if st.multi_mode {
        StateModel { multi_mode: false, result: join(st.multi_matches, seq![' ']), exiting: true, ..st }
    } else {
        StateModel { multi_mode: true, ..st }
    }
}

/// A message: `hint:<key>:<modifier>`, `exit` or `toggle-multi-mode`;
/// anything else is ignored.  The new state, and whether the overlays are
/// drawn again.
pub open spec fn input_step(
    st: StateModel,
    mode: Seq<char>,
    targets: Seq<(Seq<char>, TargetView)>,
    msg: Seq<char>,
) -> (StateModel, bool) {
    let fields = message_fields(msg);
    if fields[0] == "hint"@ {
        if fields.len() >= 3 {
            hint_step(st, fields[1], fields[2], targets)
        } else {
            (st, false)
        }
    } else if fields[0] == "exit"@ {
        (StateModel { exiting: true, ..st }, false)
    } else if fields[0] == "toggle-multi-mode"@ {
        (toggle_step(st, mode), false)
    } else {
        (st, false)
    }
}

impl SessionView {
    /// The hinter's kept matches and hints can be rendered.
    pub open spec fn wf(&self) -> bool {
        self.hinter.wf()
    }

    /// A session over a hinter and a state.
    pub fn new(hinter: Hinter, state: State, mode: String) -> (v: SessionView)
        ensures
            v.hinter == hinter,
            v.state == state,
            v.mode == mode,
    {
        SessionView { hinter, state, mode }
    }

    /// The text to write to each pane's terminal for the current state.
    pub fn render(&mut self) -> (frames: Vec<String>)
        requires
            old(self).wf(),
        ensures
            final(self).wf(),
            final(self).state == old(self).state,
            final(self).mode == old(self).mode,
            final(self).hinter.rendered_by(
                &old(self).hinter,
                frames@,
                old(self).state.input@,
                string_views(old(self).state.selected_hints@),
            ),
    {
        self.hinter.run(&self.state)
    }

    /// Writing the overlays failed: the session ends.
    pub fn render_failed(&mut self)
        ensures
            final(self).state.model() == (StateModel { exiting: true, ..old(self).state.model() }),
            final(self).hinter == old(self).hinter,
            final(self).mode == old(self).mode,
    {
        self.request_exit();
    }

    /// Handles one message from the key bindings; when the overlays are to
    /// be drawn again, the text for each pane's terminal.
    pub fn process_input(&mut self, input: &str) -> (frames: Option<Vec<String>>)
        requires
            old(self).wf(),
        ensures
            final(self).wf(),
            final(self).mode == old(self).mode,
            final(self).state.model() == input_step(
                old(self).state.model(),
                old(self).mode@,
                target_views(old(self).hinter.target_by_hint@),
                input@,
            ).0,
            frames is Some == input_step(
                old(self).state.model(),
                old(self).mode@,
                target_views(old(self).hinter.target_by_hint@),
                input@,
            ).1,
            match frames {
                Some(f) => final(self).hinter.rendered_by(
                    &old(self).hinter,
                    f@,
                    final(self).state.input@,
                    string_views(final(self).state.selected_hints@),
                ),
                None => final(self).hinter == old(self).hinter,
            },
    {
        let (head, rest) = match split_once_char(input, ':') {
            Some((h, r)) => (h, Some(r)),
            None => (to_string(input), None),
        };
        if str_eq(head.as_str(), "hint") {
            match rest {
                Some(r) => match split_once_char(r.as_str(), ':') {
                    Some((key, modifier)) => self.process_hint(key.as_str(), modifier.as_str()),
                    None => None,
                },
                None => None,
            }
        } else if str_eq(head.as_str(), "exit") {
            self.request_exit();
            None
        } else if str_eq(head.as_str(), "toggle-multi-mode") {
            self.process_multimode();
            None
        } else {
            None
        }
    }

    fn process_hint(&mut self, key: &str, modifier: &str) -> (frames: Option<Vec<String>>)
        requires
            old(self).wf(),
        ensures
            final(self).wf(),
            final(self).mode == old(self).mode,
            final(self).state.model() == hint_step(
                old(self).state.model(),
                key@,
                modifier@,
                target_views(old(self).hinter.target_by_hint@),
            ).0,
            frames is Some == hint_step(
                old(self).state.model(),
                key@,
                modifier@,
                target_views(old(self).hinter.target_by_hint@),
            ).1,
            match frames {
                Some(f) => final(self).hinter.rendered_by(
                    &old(self).hinter,
                    f@,
                    final(self).state.input@,
                    string_views(final(self).state.selected_hints@),
                ),
                None => final(self).hinter == old(self).hinter,
            },
    {
        self.state.input.append(key);
        self.state.modifier = to_string(modifier);
        let found = match self.hinter.lookup(self.state.input.as_str()) {
            Some(t) => Some(t.duplicate()),
            None => None,
        };
        match found {
            Some(target) => {
                let text = target.text.clone();
                self.state.matched_target = Some(target);
                self.handle_match(text)
            },
            None => Some(self.render()),
        }
    }

    fn process_multimode(&mut self)
        ensures
            final(self).state.model() == toggle_step(old(self).state.model(), old(self).mode@),
            final(self).hinter == old(self).hinter,
            final(self).mode == old(self).mode,
    {
        if str_eq(self.mode.as_str(), "jump") {
            return;
        }
        let prev = self.state.multi_mode;
        self.state.multi_mode = !prev;
        if prev && !self.state.multi_mode {
            proof {
                reveal_strlit(" ");
                assert(" "@ =~= seq![' ']);
            }
            self.state.result = join_strings(&self.state.multi_matches, " ");
            self.request_exit();
        }
    }

    fn handle_match(&mut self, text: String) -> (frames: Option<Vec<String>>)
        requires
            old(self).wf(),
        ensures
            final(self).wf(),
            final(self).mode == old(self).mode,
            old(self).state.multi_mode ==> final(self).state.model() == (StateModel {
                input: seq![],
                selected_hints: old(self).state.model().selected_hints.push(old(self).state.input@),
                multi_matches: old(self).state.model().multi_matches.push(text@),
                ..old(self).state.model()
            }),
            !old(self).state.multi_mode ==> final(self).state.model() == (StateModel {
                result: text@,
                exiting: true,
                ..old(self).state.model()
            }),
            frames is Some == old(self).state.multi_mode,
            match frames {
                Some(f) => final(self).hinter.rendered_by(
                    &old(self).hinter,
                    f@,
                    final(self).state.input@,
                    string_views(final(self).state.selected_hints@),
                ),
                None => final(self).hinter == old(self).hinter,
            },
    {
        if self.state.multi_mode {
            let ghost mm0 = self.state.multi_matches@;
            let ghost sh0 = self.state.selected_hints@;
            let ghost t = text@;
            self.state.multi_matches.push(text);
            let picked = self.state.input.clone();
            self.state.selected_hints.push(picked);
            self.state.input = String::new();
            proof {
                assert(string_views(self.state.multi_matches@) =~= string_views(mm0).push(t));
                assert(string_views(self.state.selected_hints@) =~= string_views(sh0).push(picked@));
            }
            Some(self.render())
        } else {
            self.state.result = text;
            self.request_exit();
            None
        }
    }

    fn request_exit(&mut self)
        ensures
            final(self).state.model() == (StateModel { exiting: true, ..old(self).state.model() }),
            final(self).hinter == old(self).hinter,
            final(self).mode == old(self).mode,
    {
        self.state.exiting = true;
    }
}


/// The message that a hint key sends: `hint:<key>:<modifier>`.
pub open spec fn hint_message(key: Seq<char>, modifier: Seq<char>) -> Seq<char> {
    "hint"@ + seq![':'] + key + seq![':'] + modifier
}

/// The messages sent by typing the letters of `keys` one at a time, each
/// with the same modifier.
pub open spec fn key_messages(keys: Seq<char>, modifier: Seq<char>) -> Seq<Seq<char>> {
    Seq::new(keys.len(), |i: int| hint_message(seq![keys[i]], modifier))
}

/// Messages handled one after another against a fixed table of hints: the
/// state after the last.
pub open spec fn after_inputs(
    st: StateModel,
    mode: Seq<char>,
    targets: Seq<(Seq<char>, TargetView)>,
    msgs: Seq<Seq<char>>,
) -> StateModel
    decreases msgs.len(),
{
    if msgs.len() == 0 {
        st
    } else {
        input_step(after_inputs(st, mode, targets, msgs.drop_last()), mode, targets, msgs.last()).0
    }
}

/// The text of the target of a hint in the table.
pub open spec fn hint_text(targets: Seq<(Seq<char>, TargetView)>, hint: Seq<char>) -> Seq<char> {
    targets[assoc_find(targets, hint)].1.0
}

/// A hint message is read as its three fields.
pub proof fn lemma_hint_message_fields(key: Seq<char>, modifier: Seq<char>)
    requires
        forall|i: int| 0 <= i < key.len() ==> key[i] != ':',
    ensures
        message_fields(hint_message(key, modifier)) == seq!["hint"@, key, modifier],
{
    reveal_strlit("hint");
    let rest = key + seq![':'] + modifier;
    assert(hint_message(key, modifier) =~= "hint"@ + seq![':'] + rest);
    lemma_split_once_at("hint"@, rest, ':');
    lemma_split_once_at(key, modifier, ':');
}

/// The toggle message is read as one field.
pub proof fn lemma_toggle_message_fields()
    ensures
        message_fields("toggle-multi-mode"@) == seq!["toggle-multi-mode"@],
{
    reveal_strlit("toggle-multi-mode");
    lemma_split_once_none("toggle-multi-mode"@, ':');
}

/// Typing a hint one letter at a time: while what has been typed names no
/// hint, each letter only joins the input (and the overlays are drawn
/// again), so the letters together act as the whole hint typed at once.
pub proof fn law_letters_act_as_whole_key(
    st: StateModel,
    mode: Seq<char>,
    targets: Seq<(Seq<char>, TargetView)>,
    keys: Seq<char>,
    modifier: Seq<char>,
)
    requires
        keys.len() > 0,
        forall|i: int| 0 <= i < keys.len() ==> keys[i] != ':',
        forall|k: int| 0 < k < keys.len() ==> assoc_find(targets, st.input + #[trigger] keys.take(k)) < 0,
    ensures
        after_inputs(st, mode, targets, key_messages(keys, modifier)) == hint_step(st, keys, modifier, targets).0,
{
    lemma_typed_prefix(st, mode, targets, keys, modifier, (keys.len() - 1) as nat);
    let n = keys.len() as int;
    let msgs = key_messages(keys, modifier);
    assert(msgs.drop_last() =~= key_messages(keys.take(n - 1), modifier));
    let c = keys[n - 1];
    lemma_hint_message_fields(seq![c], modifier);
    let mid = StateModel { input: st.input + keys.take(n - 1), modifier, ..st };
    assert(mid.input + seq![c] =~= st.input + keys);
    if n - 1 == 0 {
        assert(keys.take(0) =~= Seq::<char>::empty());
        assert(st.input + Seq::<char>::empty() =~= st.input);
    }
}

proof fn lemma_typed_prefix(
    st: StateModel,
    mode: Seq<char>,
    targets: Seq<(Seq<char>, TargetView)>,
    keys: Seq<char>,
    modifier: Seq<char>,
    k: nat,
)
    requires
        k < keys.len(),
        forall|i: int| 0 <= i < keys.len() ==> keys[i] != ':',
        forall|j: int| 0 < j < keys.len() ==> assoc_find(targets, st.input + #[trigger] keys.take(j)) < 0,
    ensures
        k == 0 ==> after_inputs(st, mode, targets, key_messages(keys.take(0), modifier)) == st,
        k > 0 ==> after_inputs(st, mode, targets, key_messages(keys.take(k as int), modifier)) == (StateModel {
            input: st.input + keys.take(k as int),
            modifier,
            ..st
        }),
    decreases k,
{
    assert(key_messages(keys.take(0), modifier) =~= Seq::<Seq<char>>::empty());
    if k > 0 {
        lemma_typed_prefix(st, mode, targets, keys, modifier, (k - 1) as nat);
        let msgs = key_messages(keys.take(k as int), modifier);
        assert(msgs.drop_last() =~= key_messages(keys.take(k - 1), modifier));
        let c = keys[k - 1];
        assert(msgs.last() == hint_message(seq![c], modifier));
        lemma_hint_message_fields(seq![c], modifier);
        let before = after_inputs(st, mode, targets, msgs.drop_last());
        if k == 1 {
            assert(st.input + seq![c] =~= st.input + keys.take(1));
        } else {
            assert(before.input + seq![c] =~= st.input + keys.take(k as int));
        }
        assert(assoc_find(targets, st.input + keys.take(k as int)) < 0);
    }
}

/// In a table whose hints are prefix-free, a hint typed letter by letter
/// from an empty input selects its own target.
pub proof fn law_typed_hint_selects(
    st: StateModel,
    mode: Seq<char>,
    targets: Seq<(Seq<char>, TargetView)>,
    hint: Seq<char>,
    modifier: Seq<char>,
)
    requires
        prefix_free_table(targets),
        st.input.len() == 0,
        assoc_find(targets, hint) >= 0,
        hint.len() > 0,
        forall|i: int| 0 <= i < hint.len() ==> hint[i] != ':',
    ensures
        after_inputs(st, mode, targets, key_messages(hint, modifier)) == hint_step(st, hint, modifier, targets).0,
        after_inputs(st, mode, targets, key_messages(hint, modifier)).matched_target == Some(
            targets[assoc_find(targets, hint)].1,
        ),
{
    let j = assoc_find(targets, hint);
    lemma_assoc_find_props(targets, hint);
    assert forall|k: int| 0 < k < hint.len() implies assoc_find(targets, st.input + #[trigger] hint.take(k)) < 0 by {
        assert(st.input + hint.take(k) =~= hint.take(k));
        lemma_assoc_find_props(targets, hint.take(k));
        let i = assoc_find(targets, hint.take(k));
        if i >= 0 {
            assert(targets[i].0 == hint.take(k));
            assert(hint.take(k).len() == k);
            assert(targets[j].0.take(k) == hint.take(k));
            assert(i != j);
        }
    }
    assert(st.input + hint =~= hint);
    law_letters_act_as_whole_key(st, mode, targets, hint, modifier);
}

/// Multi-select: outside jump mode, switching it on, picking whole hints
/// one after another and switching it off ends the session with the texts
/// collected before and the picked targets' texts, in the order picked,
/// joined by spaces.
pub proof fn law_multi_select_joins_picks(
    st: StateModel,
    mode: Seq<char>,
    targets: Seq<(Seq<char>, TargetView)>,
    picks: Seq<(Seq<char>, Seq<char>)>,
)
    requires
        mode != "jump"@,
        !st.multi_mode,
        st.input.len() == 0,
        forall|i: int| 0 <= i < picks.len() ==> assoc_find(targets, #[trigger] picks[i].0) >= 0,
        forall|i: int, j: int| 0 <= i < picks.len() && 0 <= j < picks[i].0.len() ==> (#[trigger] picks[i].0[j]) != ':',
    ensures
        ({
            let msgs = seq!["toggle-multi-mode"@] + picks.map_values(|p: (Seq<char>, Seq<char>)| hint_message(p.0, p.1))
                + seq!["toggle-multi-mode"@];
            let end = after_inputs(st, mode, targets, msgs);
            &&& end.exiting
            &&& !end.multi_mode
            &&& end.result == join(
                st.multi_matches + picks.map_values(|p: (Seq<char>, Seq<char>)| hint_text(targets, p.0)),
                seq![' '],
            )
        }),
{
    let pm = picks.map_values(|p: (Seq<char>, Seq<char>)| hint_message(p.0, p.1));
    let texts = picks.map_values(|p: (Seq<char>, Seq<char>)| hint_text(targets, p.0));
    lemma_toggle_message_fields();
    lemma_picks(st, mode, targets, picks, picks.len());
    let msgs = seq!["toggle-multi-mode"@] + pm + seq!["toggle-multi-mode"@];
    assert(msgs.drop_last() =~= seq!["toggle-multi-mode"@] + pm);
    assert(pm.take(picks.len() as int) =~= pm);
    assert(texts.take(picks.len() as int) =~= texts);
    assert(msgs.last() == "toggle-multi-mode"@);
    assert("toggle-multi-mode"@ != "hint"@) by {
        reveal_strlit("toggle-multi-mode");
        reveal_strlit("hint");
        assert("toggle-multi-mode"@.len() != "hint"@.len());
    }
    assert("toggle-multi-mode"@ != "exit"@) by {
        reveal_strlit("toggle-multi-mode");
        reveal_strlit("exit");
        assert("toggle-multi-mode"@.len() != "exit"@.len());
    }
}

proof fn lemma_picks(
    st: StateModel,
    mode: Seq<char>,
    targets: Seq<(Seq<char>, TargetView)>,
    picks: Seq<(Seq<char>, Seq<char>)>,
    k: nat,
)
    requires
        mode != "jump"@,
        !st.multi_mode,
        st.input.len() == 0,
        k <= picks.len(),
        forall|i: int| 0 <= i < picks.len() ==> assoc_find(targets, #[trigger] picks[i].0) >= 0,
        forall|i: int, j: int| 0 <= i < picks.len() && 0 <= j < picks[i].0.len() ==> (#[trigger] picks[i].0[j]) != ':',
    ensures
        ({
            let pm = picks.map_values(|p: (Seq<char>, Seq<char>)| hint_message(p.0, p.1));
            let texts = picks.map_values(|p: (Seq<char>, Seq<char>)| hint_text(targets, p.0));
            let s = after_inputs(st, mode, targets, seq!["toggle-multi-mode"@] + pm.take(k as int));
            &&& s.multi_mode
            &&& s.input.len() == 0
            &&& s.multi_matches == st.multi_matches + texts.take(k as int)
        }),
    decreases k,
{
    let pm = picks.map_values(|p: (Seq<char>, Seq<char>)| hint_message(p.0, p.1));
    let texts = picks.map_values(|p: (Seq<char>, Seq<char>)| hint_text(targets, p.0));
    lemma_toggle_message_fields();
    assert("toggle-multi-mode"@ != "hint"@) by {
        reveal_strlit("toggle-multi-mode");
        reveal_strlit("hint");
        assert("toggle-multi-mode"@.len() != "hint"@.len());
    }
    assert("toggle-multi-mode"@ != "exit"@) by {
        reveal_strlit("toggle-multi-mode");
        reveal_strlit("exit");
        assert("toggle-multi-mode"@.len() != "exit"@.len());
    }
    if k == 0 {
        let m = seq!["toggle-multi-mode"@] + pm.take(0);
        assert(m =~= seq!["toggle-multi-mode"@]);
        assert(m.drop_last() =~= Seq::<Seq<char>>::empty());
        assert(after_inputs(st, mode, targets, m.drop_last()) == st);
        assert(m.last() == "toggle-multi-mode"@);
        assert(after_inputs(st, mode, targets, m) == toggle_step(st, mode));
        assert(st.multi_matches + texts.take(0) =~= st.multi_matches);
    } else {
        lemma_picks(st, mode, targets, picks, (k - 1) as nat);
        let m = seq!["toggle-multi-mode"@] + pm.take(k as int);
        assert(m.drop_last() =~= seq!["toggle-multi-mode"@] + pm.take(k - 1));
        let p = picks[k - 1];
        assert(m.last() == hint_message(p.0, p.1));
        assert forall|j: int| 0 <= j < p.0.len() implies p.0[j] != ':' by {
            assert(picks[k - 1].0[j] != ':');
        }
        lemma_hint_message_fields(p.0, p.1);
        let before = after_inputs(st, mode, targets, m.drop_last());
        assert(before.input + p.0 =~= p.0);
        assert(assoc_find(targets, picks[k - 1].0) >= 0);
        assert(texts.take(k as int) =~= texts.take(k - 1).push(hint_text(targets, p.0)));
        assert(st.multi_matches + texts.take(k as int) =~= (st.multi_matches + texts.take(k - 1)).push(
            hint_text(targets, p.0),
        ));
        assert(after_inputs(st, mode, targets, m) == hint_step(before, p.0, p.1, targets).0);
    }
}


/// Law: in a session whose hint table is the one built from the generated
/// pool, over an alphabet of distinct single letters none of which is `?`
/// or `:`, typing the letters of any hint in the table, one message per
/// letter and from an empty input, picks that hint's target.
pub proof fn law_session_typed_hint_selects(v: SessionView, hint: Seq<char>, modifier: Seq<char>)
    requires
        crate::hint::huffman::distinct_letters(string_views(v.hinter.alphabet@)),
        forall|k: int|
            0 <= k < v.hinter.alphabet@.len() ==> (#[trigger] v.hinter.alphabet@[k])@[0] != '?'
                && v.hinter.alphabet@[k]@[0] != ':',
        !(v.hinter.alphabet@.len() == 1 && v.hinter.needed() > 1),
        v.hinter.needed() <= usize::MAX / 4,
        target_views(v.hinter.target_by_hint@) == v.hinter.assigned(
            crate::hinter::pool_for(string_views(v.hinter.alphabet@), v.hinter.needed()),
        ).0.2,
        v.state.input@.len() == 0,
        assoc_find(target_views(v.hinter.target_by_hint@), hint) >= 0,
    ensures
        ({
            let targets = target_views(v.hinter.target_by_hint@);
            let end = after_inputs(v.state.model(), v.mode@, targets, key_messages(hint, modifier));
            &&& end == hint_step(v.state.model(), hint, modifier, targets).0
            &&& end.matched_target == Some(targets[assoc_find(targets, hint)].1)
        }),
{
    let targets = target_views(v.hinter.target_by_hint@);
    let alph = string_views(v.hinter.alphabet@);
    crate::hinter::laws::law_generated_table_prefix_free(v.hinter);
    let i = assoc_find(targets, hint);
    lemma_assoc_find_props(targets, hint);
    assert(targets[i].0 == hint);
    assert forall|t: int| 0 <= t < hint.len() implies hint[t] != ':' by {
        if hint[t] != '?' {
            assert(crate::hint::huffman::is_letter(alph, hint[t]));
            let k = choose|k: int| 0 <= k < alph.len() && (#[trigger] alph[k])[0] == hint[t];
            assert(alph[k] == v.hinter.alphabet@[k]@);
        }
    }
    law_typed_hint_selects(v.state.model(), v.mode@, targets, hint, modifier);
}

} // verus!
