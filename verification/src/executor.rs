//! The command executor: walks a command list in order, grows the keymap on
//! demand, and emits the exact stream of channel actions — uploads,
//! roundtrips, key and modifier events, sleeps — that a driver performs
//! against the compositor channel.

use vstd::prelude::*;
use vstd::string::*;
use crate::Command;
use crate::CommandView;
use crate::Modifier;
use crate::WrtypeError;
use crate::keymap::KEYMAP_MAX_ENTRIES;
use crate::keymap::KeymapBuilder;
use crate::keymap::KeymapEntry;
use crate::keymap::char_step;
use crate::keymap::entries_wf;
use crate::keymap::lemma_char_step_props;
use crate::keymap::lemma_sym_step_props;
use crate::keymap::lemma_text_step_props;
use crate::keymap::spec_render_keymap;
use crate::keymap::sym_step;
use crate::keymap::text_step;
use crate::keysym::KEYSYM_NOSYMBOL;
use crate::keysym::spec_resolve_key_name;
use crate::press_mask;
use crate::release_mask;
use crate::split_modifiers;

verus! {

/// The fixed settle delay between a key press and its release, and after the
/// release, in milliseconds. It is a policy choice, not a protocol
/// requirement, and the executor takes it as a parameter.
pub const SETTLE_DELAY_MS: u64 = 2;

/// One action the executor asks the channel driver to perform. Actions are
/// performed strictly in order.
#[derive(Debug, Clone)]
pub enum Action {
    /// Upload this textual keymap to the channel.
    UploadKeymap(String),
    /// Block until the remote endpoint has processed all prior messages.
    Roundtrip,
    /// Send one key event: the code, pressed or released.
    SendKey { keycode: u32, pressed: bool },
    /// Send the modifier state, split into held and locked sub-masks.
    SendModifiers { depressed: u32, locked: u32 },
    /// Wait this many milliseconds without protocol interaction.
    SleepMs(u64),
}

/// The mathematical shape of an action: keymap text as a character sequence.
#[verifier::ext_equal]
pub ghost enum ActionView {
    UploadKeymap(Seq<char>),
    Roundtrip,
    SendKey { keycode: u32, pressed: bool },
    SendModifiers { depressed: u32, locked: u32 },
    SleepMs(u64),
}

impl View for Action {
    type V = ActionView;

    open spec fn view(&self) -> ActionView {
        match self {
            Action::UploadKeymap(s) => ActionView::UploadKeymap(s@),
            Action::Roundtrip => ActionView::Roundtrip,
            Action::SendKey { keycode, pressed } => ActionView::SendKey {
                keycode: *keycode,
                pressed: *pressed,
            },
            Action::SendModifiers { depressed, locked } => ActionView::SendModifiers {
                depressed: *depressed,
                locked: *locked,
            },
            Action::SleepMs(ms) => ActionView::SleepMs(*ms),
        }
    }
}

/// The views of a sequence of actions.
pub open spec fn actions_view(v: Seq<Action>) -> Seq<ActionView> {
    v.map_values(|a: Action| a@)
}

/// Appending one action appends its view.
proof fn lemma_actions_view_push(s: Seq<Action>, a: Action)
    ensures
        actions_view(s.push(a)) == actions_view(s).push(a@),
{
    assert(actions_view(s.push(a)) =~~= actions_view(s).push(a@));
}

/// The executor's state as the contracts speak of it: the keymap entries and
/// the held-modifier mask.
#[verifier::ext_equal]
pub ghost struct ExecState {
    pub entries: Seq<KeymapEntry>,
    pub mods: u32,
}

/// The actions that install a keymap remotely: upload its rendering, then
/// block until the remote endpoint has processed it.
pub open spec fn upload_actions(entries: Seq<KeymapEntry>) -> Seq<ActionView> {
    seq![
        ActionView::UploadKeymap(spec_render_keymap(entries)),
        ActionView::Roundtrip,
    ]
}

/// The actions that transmit a modifier mask: the split masks, then a
/// roundtrip.
pub open spec fn modifier_actions(mask: u32) -> Seq<ActionView> {
    seq![
        ActionView::SendModifiers {
            depressed: mask & !Modifier::CapsLock.spec_mask(),
            locked: mask & Modifier::CapsLock.spec_mask(),
        },
        ActionView::Roundtrip,
    ]
}

/// The actions that type one code: press, settle, release, settle.
pub open spec fn tap_actions(code: u32, settle: u64) -> Seq<ActionView> {
    seq![
        ActionView::SendKey { keycode: code, pressed: true },
        ActionView::Roundtrip,
        ActionView::SleepMs(settle),
        ActionView::SendKey { keycode: code, pressed: false },
        ActionView::Roundtrip,
        ActionView::SleepMs(settle),
    ]
}

/// The actions that type one code and then wait the caller's delay, where
/// one was asked for.
pub open spec fn tap_with_delay(code: u32, settle: u64, delay: u64) -> Seq<ActionView> {
    tap_actions(code, settle) + (if delay == 0 {
        Seq::<ActionView>::empty()
    } else {
        seq![ActionView::SleepMs(delay)]
    })
}

/// The actions that type a sequence of codes in order.
pub open spec fn taps(codes: Seq<u32>, settle: u64, delay: u64) -> Seq<ActionView>
    decreases codes.len(),
{
    if codes.len() == 0 {
        Seq::empty()
    } else {
        tap_with_delay(codes[0], settle, delay) + taps(codes.skip(1), settle, delay)
    }
}

/// Typing one more code appends its actions.
proof fn lemma_taps_snoc(codes: Seq<u32>, c: u32, settle: u64, delay: u64)
    ensures
        taps(codes.push(c), settle, delay) == taps(codes, settle, delay) + tap_with_delay(
            c,
            settle,
            delay,
        ),
    decreases codes.len(),
{
    if codes.len() == 0 {
        let p = codes.push(c);
        assert(p[0] == c);
        assert(p.skip(1) =~= Seq::<u32>::empty());
        assert(taps(p, settle, delay) == tap_with_delay(c, settle, delay) + taps(
            Seq::<u32>::empty(),
            settle,
            delay,
        ));
        assert(taps(Seq::<u32>::empty(), settle, delay) == Seq::<ActionView>::empty());
        assert(taps(p, settle, delay) =~= taps(codes, settle, delay) + tap_with_delay(
            c,
            settle,
            delay,
        ));
    } else {
        assert(codes.push(c).skip(1) =~= codes.skip(1).push(c));
        lemma_taps_snoc(codes.skip(1), c, settle, delay);
        assert(taps(codes.push(c), settle, delay) =~= taps(codes, settle, delay) + tap_with_delay(
            c,
            settle,
            delay,
        ));
    }
}

/// Append the actions that type one code: press, settle, release, settle,
/// and the caller's delay where one was asked for.
fn push_tap(acts: &mut Vec<Action>, code: u32, settle: u64, delay: u64)
    ensures
        actions_view(final(acts)@) == actions_view(old(acts)@) + tap_with_delay(
            code,
            settle,
            delay,
        ),
{
    let ghost g0 = acts@;
    acts.push(Action::SendKey { keycode: code, pressed: true });
    proof {
        lemma_actions_view_push(g0, Action::SendKey { keycode: code, pressed: true });
    }
    let ghost g1 = acts@;
    acts.push(Action::Roundtrip);
    proof {
        lemma_actions_view_push(g1, Action::Roundtrip);
    }
    let ghost g2 = acts@;
    acts.push(Action::SleepMs(settle));
    proof {
        lemma_actions_view_push(g2, Action::SleepMs(settle));
    }
    let ghost g3 = acts@;
    acts.push(Action::SendKey { keycode: code, pressed: false });
    proof {
        lemma_actions_view_push(g3, Action::SendKey { keycode: code, pressed: false });
    }
    let ghost g4 = acts@;
    acts.push(Action::Roundtrip);
    proof {
        lemma_actions_view_push(g4, Action::Roundtrip);
    }
    let ghost g5 = acts@;
    acts.push(Action::SleepMs(settle));
    proof {
        lemma_actions_view_push(g5, Action::SleepMs(settle));
    }
    if delay != 0 {
        let ghost g6 = acts@;
        acts.push(Action::SleepMs(delay));
        proof {
            lemma_actions_view_push(g6, Action::SleepMs(delay));
        }
    }
    proof {
        assert(actions_view(acts@) =~~= actions_view(g0) + tap_with_delay(code, settle, delay));
    }
}

/// What performing a step asks of the driver next: a batch of actions, or
/// one round of reading the byte source.
pub enum StepOutcome {
    /// Perform these actions in order.
    Actions(Vec<Action>),
    /// Read the byte source and type what it yields, waiting `delay`
    /// milliseconds after each character, until it is exhausted.
    ReadInput { delay: u64 },
}

/// The spec-level shape of a step's outcome.
#[verifier::ext_equal]
pub ghost enum StepView {
    Acts(Seq<ActionView>),
    ReadInput { delay: u64 },
}

/// How much a command can grow the keymap: one entry per character of a
/// text, one for a named key, none otherwise.
pub open spec fn spec_growth(c: CommandView) -> int {
    match c {
        CommandView::Text { text, .. } => text.len() as int,
        CommandView::KeyPress(_) => 1,
        CommandView::KeyRelease(_) => 1,
        _ => 0,
    }
}

/// What executing one command does: how the state changes, and which actions
/// flow to the driver. Typing computes all codes up front and re-installs
/// the keymap once, before any event, if it grew; key names resolve first
/// and fail with `UnknownKeyName` — before any action — exactly when the
/// name is unknown; modifier changes transmit the new split mask; sleeps
/// only wait; the byte source is handed back to the driver to read.
pub open spec fn spec_step(s: ExecState, c: CommandView, settle: u64) -> Result<
    (ExecState, StepView),
    WrtypeError,
> {
    match c {
        CommandView::Text { text, delay } => {
            let (e2, codes) = text_step(s.entries, text);
            let upload = if e2.len() > s.entries.len() {
                upload_actions(e2)
            } else {
                Seq::<ActionView>::empty()
            };
            Ok(
                (
                    ExecState { entries: e2, mods: s.mods },
                    StepView::Acts(upload + taps(codes, settle, delay)),
                ),
            )
        },
        CommandView::ModPress(m) => {
            let mods2 = s.mods | m.spec_mask();
            Ok((ExecState { entries: s.entries, mods: mods2 }, StepView::Acts(modifier_actions(mods2))))
        },
        CommandView::ModRelease(m) => {
            let mods2 = s.mods & !m.spec_mask();
            Ok((ExecState { entries: s.entries, mods: mods2 }, StepView::Acts(modifier_actions(mods2))))
        },
        CommandView::KeyPress(name) => spec_key_step(s, name, true),
        CommandView::KeyRelease(name) => spec_key_step(s, name, false),
        CommandView::Sleep(ms) => Ok((s, StepView::Acts(seq![ActionView::SleepMs(ms)]))),
        CommandView::StdinText { delay } => Ok((s, StepView::ReadInput { delay })),
    }
}

/// What pressing or releasing a named key does: resolve the name, fail with
/// `UnknownKeyName` and no action where it is unknown, else allocate or find
/// its code, re-install the keymap first if it grew, and send exactly one
/// key event.
pub open spec fn spec_key_step(s: ExecState, name: Seq<char>, pressed: bool) -> Result<
    (ExecState, StepView),
    WrtypeError,
> {
    let k = spec_resolve_key_name(name);
    if k == KEYSYM_NOSYMBOL {
        Err(WrtypeError::UnknownKeyName)
    } else {
        let (e2, code) = sym_step(s.entries, k);
        let upload = if e2.len() > s.entries.len() {
            upload_actions(e2)
        } else {
            Seq::<ActionView>::empty()
        };
        Ok(
            (
                ExecState { entries: e2, mods: s.mods },
                StepView::Acts(
                    upload + seq![
                        ActionView::SendKey { keycode: code, pressed },
                        ActionView::Roundtrip,
                    ],
                ),
            ),
        )
    }
}

/// What typing one decoded character does: allocate or find its code,
/// re-install the keymap first if it grew, type the code, and wait the
/// caller's delay.
pub open spec fn spec_type_char(s: ExecState, c: char, settle: u64, delay: u64) -> (
    ExecState,
    Seq<ActionView>,
) {
    let (e2, code) = char_step(s.entries, c);
    let upload = if e2.len() > s.entries.len() {
        upload_actions(e2)
    } else {
        Seq::<ActionView>::empty()
    };
    (ExecState { entries: e2, mods: s.mods }, upload + tap_with_delay(code, settle, delay))
}

/// The command executor: the growing keymap, the held-modifier mask that
/// mirrors the last transmitted state, and the settle delay policy.
pub struct CommandExecutor {
    keymap: KeymapBuilder,
    mod_state: u32,
    settle_ms: u64,
}

impl CommandExecutor {
    /// The executor's invariant: its keymap is well formed.
    pub closed spec fn wf(&self) -> bool {
        self.keymap.wf()
    }

    /// The executor's state, as the contracts speak of it.
    pub closed spec fn state(&self) -> ExecState {
        ExecState { entries: self.keymap@, mods: self.mod_state }
    }

    /// The settle delay this executor applies, in milliseconds.
    pub closed spec fn settle(&self) -> u64 {
        self.settle_ms
    }

    /// An executor with an empty keymap, no held modifier, and the default
    /// settle delay.
    pub fn new() -> (r: CommandExecutor)
        ensures
            r.wf(),
            r.state() == (ExecState { entries: Seq::<KeymapEntry>::empty(), mods: 0u32 }),
            r.settle() == SETTLE_DELAY_MS,
    {
        let r = CommandExecutor {
            keymap: KeymapBuilder::new(),
            mod_state: 0,
            settle_ms: SETTLE_DELAY_MS,
        };
        proof {
            assert(r.state() =~~= (ExecState { entries: Seq::<KeymapEntry>::empty(), mods: 0u32 }));
        }
        r
    }

    /// An executor with a settle delay of the caller's choosing.
    pub fn with_settle_delay(settle_ms: u64) -> (r: CommandExecutor)
        ensures
            r.wf(),
            r.state() == (ExecState { entries: Seq::<KeymapEntry>::empty(), mods: 0u32 }),
            r.settle() == settle_ms,
    {
        let r = CommandExecutor { keymap: KeymapBuilder::new(), mod_state: 0, settle_ms };
        proof {
            assert(r.state() =~~= (ExecState { entries: Seq::<KeymapEntry>::empty(), mods: 0u32 }));
        }
        r
    }

    /// The actions that establish the protocol baseline before any event: the
    /// current keymap, uploaded and waited for. No key event is valid before
    /// some keymap exists remotely.
    pub fn setup_actions(&self) -> (acts: Vec<Action>)
        requires
            self.wf(),
        ensures
            actions_view(acts@) == upload_actions(self.state().entries),
    {
        let mut acts: Vec<Action> = Vec::new();
        acts.push(Action::UploadKeymap(self.keymap.generate_keymap()));
        acts.push(Action::Roundtrip);
        proof {
            assert(actions_view(acts@) =~~= upload_actions(self.state().entries));
        }
        acts
    }

    /// The cleanup actions: force every modifier released and synchronize,
    /// whatever was executed, so no modifier stays stuck after the session.
    pub fn cleanup_actions(&mut self) -> (acts: Vec<Action>)
        requires
            old(self).wf(),
        ensures
            final(self).wf(),
            final(self).state() == (ExecState { entries: old(self).state().entries, mods: 0u32 }),
            final(self).settle() == old(self).settle(),
            actions_view(acts@) == modifier_actions(0),
    {
        self.mod_state = 0;
        let mut acts: Vec<Action> = Vec::new();
        let masks = split_modifiers(0);
        acts.push(Action::SendModifiers { depressed: masks.0, locked: masks.1 });
        acts.push(Action::Roundtrip);
        proof {
            assert(actions_view(acts@) =~~= modifier_actions(0));
            assert(self.state() =~~= (ExecState {
                entries: old(self).state().entries,
                mods: 0u32,
            }));
        }
        acts
    }

    /// Execute one command: change the state and hand back what the driver
    /// must do, exactly as `spec_step` describes. Fails — before any action —
    /// exactly when a key name does not resolve.
    pub fn step_command(&mut self, cmd: &Command) -> (r: Result<StepOutcome, WrtypeError>)
        requires
            old(self).wf(),
            old(self).state().entries.len() + spec_growth(cmd@) <= KEYMAP_MAX_ENTRIES,
        ensures
            final(self).wf(),
            final(self).settle() == old(self).settle(),
            ({
                let pre = old(self).state();
                match spec_step(pre, cmd@, old(self).settle()) {
                    Ok((s2, sv)) => {
                        &&& final(self).state() == s2
                        &&& match (r, sv) {
                            (Ok(StepOutcome::Actions(v)), StepView::Acts(acts)) => actions_view(
                                v@,
                            ) == acts,
                            (
                                Ok(StepOutcome::ReadInput { delay: d }),
                                StepView::ReadInput { delay },
                            ) => d == delay,
                            _ => false,
                        }
                    },
                    Err(e) => r == Err::<StepOutcome, WrtypeError>(e) && final(self).state()
                        == pre,
                }
            }),
    {
        let ghost pre = old(self).state();
        match cmd {
            Command::Text { text, delay } => {
                let settle = self.settle_ms;
                let delay = *delay;
                let pre_n = self.keymap.len();
                let codes = self.keymap.get_keycodes_for_text(text.as_str());
                let mut acts: Vec<Action> = Vec::new();
                let ghost upload_part = if self.keymap@.len() > pre.entries.len() {
                    upload_actions(self.keymap@)
                } else {
                    Seq::<ActionView>::empty()
                };
                if self.keymap.len() > pre_n {
                    acts.push(Action::UploadKeymap(self.keymap.generate_keymap()));
                    acts.push(Action::Roundtrip);
                }
                proof {
                    assert(actions_view(acts@) =~~= upload_part);
                    assert(actions_view(acts@) + taps(codes@.take(0), settle, delay)
                        =~~= upload_part);
                }
                let ghost snap = *self;
                let n = codes.len();
                let mut i: usize = 0;
                while i < n
                    invariant
                        0 <= i <= n,
                        n == codes@.len(),
                        *self == snap,
                        actions_view(acts@) == upload_part + taps(
                            codes@.take(i as int),
                            settle,
                            delay,
                        ),
                    decreases n - i,
                {
                    let code = codes[i];
                    push_tap(&mut acts, code, settle, delay);
                    proof {
                        assert(codes@.take(i + 1) =~= codes@.take(i as int).push(codes@[i as int]));
                        lemma_taps_snoc(codes@.take(i as int), codes@[i as int], settle, delay);
                        assert(actions_view(acts@) =~~= upload_part + taps(
                            codes@.take(i + 1),
                            settle,
                            delay,
                        ));
                    }
                    i = i + 1;
                }
                proof {
                    assert(codes@.take(n as int) =~= codes@);
                    let (e2, cs) = text_step(pre.entries, text@);
                    assert(self.state() =~~= (ExecState { entries: e2, mods: pre.mods }));
                }
                Ok(StepOutcome::Actions(acts))
            },
            Command::ModPress(m) => {
                let new_mods = press_mask(self.mod_state, *m);
                self.mod_state = new_mods;
                let acts = self.modifier_batch(new_mods);
                proof {
                    assert(self.state() =~~= (ExecState { entries: pre.entries, mods: new_mods }));
                }
                Ok(StepOutcome::Actions(acts))
            },
            Command::ModRelease(m) => {
                let new_mods = release_mask(self.mod_state, *m);
                self.mod_state = new_mods;
                let acts = self.modifier_batch(new_mods);
                proof {
                    assert(self.state() =~~= (ExecState { entries: pre.entries, mods: new_mods }));
                }
                Ok(StepOutcome::Actions(acts))
            },
            Command::KeyPress(name) => {
                match self.key_action(name.as_str(), true) {
                    Ok(acts) => Ok(StepOutcome::Actions(acts)),
                    Err(e) => Err(e),
                }
            },
            Command::KeyRelease(name) => {
                match self.key_action(name.as_str(), false) {
                    Ok(acts) => Ok(StepOutcome::Actions(acts)),
                    Err(e) => Err(e),
                }
            },
            Command::Sleep(ms) => {
                let mut acts: Vec<Action> = Vec::new();
                acts.push(Action::SleepMs(*ms));
                proof {
                    assert(actions_view(acts@) =~~= seq![ActionView::SleepMs(cmd@->Sleep_0)]);
                }
                Ok(StepOutcome::Actions(acts))
            },
            Command::StdinText { delay } => Ok(StepOutcome::ReadInput { delay: *delay }),
        }
    }

    /// The actions that transmit a freshly changed modifier mask.
    fn modifier_batch(&self, mask: u32) -> (acts: Vec<Action>)
        ensures
            actions_view(acts@) == modifier_actions(mask),
    {
        let masks = split_modifiers(mask);
        let mut acts: Vec<Action> = Vec::new();
        acts.push(Action::SendModifiers { depressed: masks.0, locked: masks.1 });
        acts.push(Action::Roundtrip);
        proof {
            assert(actions_view(acts@) =~~= modifier_actions(mask));
        }
        acts
    }

    /// Press or release one named key, exactly as `spec_key_step` describes.
    fn key_action(&mut self, name: &str, pressed: bool) -> (r: Result<Vec<Action>, WrtypeError>)
        requires
            old(self).wf(),
            old(self).state().entries.len() + 1 <= KEYMAP_MAX_ENTRIES,
        ensures
            final(self).wf(),
            final(self).settle() == old(self).settle(),
            ({
                let pre = old(self).state();
                match spec_key_step(pre, name@, pressed) {
                    Ok((s2, sv)) => {
                        &&& final(self).state() == s2
                        &&& (r matches Ok(v) && sv == StepView::Acts(actions_view(v@)))
                    },
                    Err(e) => r == Err::<Vec<Action>, WrtypeError>(e) && final(self).state()
                        == pre,
                }
            }),
    {
        let ghost pre = old(self).state();
        let pre_n = self.keymap.len();
        match self.keymap.get_keycode_for_key_name(name) {
            Err(e) => {
                proof {
                    assert(self.state() =~~= pre);
                }
                Err(e)
            },
            Ok(code) => {
                let mut acts: Vec<Action> = Vec::new();
                if self.keymap.len() > pre_n {
                    acts.push(Action::UploadKeymap(self.keymap.generate_keymap()));
                    acts.push(Action::Roundtrip);
                }
                acts.push(Action::SendKey { keycode: code, pressed });
                acts.push(Action::Roundtrip);
                proof {
                    let k = spec_resolve_key_name(name@);
                    let (e2, c2) = sym_step(pre.entries, k);
                    let upload = if e2.len() > pre.entries.len() {
                        upload_actions(e2)
                    } else {
                        Seq::<ActionView>::empty()
                    };
                    assert(actions_view(acts@) =~~= upload + seq![
                        ActionView::SendKey { keycode: c2, pressed },
                        ActionView::Roundtrip,
                    ]);
                    assert(self.state() =~~= (ExecState { entries: e2, mods: pre.mods }));
                }
                Ok(acts)
            },
        }
    }

    /// Type one decoded character, exactly as `spec_type_char` describes:
    /// install the keymap first where the character grew it, then press and
    /// release its code, then wait the caller's delay.
    pub fn type_character(&mut self, ch: char, delay: u64) -> (acts: Vec<Action>)
        requires
            old(self).wf(),
            old(self).state().entries.len() + 1 <= KEYMAP_MAX_ENTRIES,
        ensures
            final(self).wf(),
            final(self).settle() == old(self).settle(),
            ({
                let (s2, av) = spec_type_char(old(self).state(), ch, old(self).settle(), delay);
                final(self).state() == s2 && actions_view(acts@) == av
            }),
    {
        let ghost pre = old(self).state();
        let settle = self.settle_ms;
        let pre_n = self.keymap.len();
        let code = self.keymap.get_keycode_for_char(ch);
        let mut acts: Vec<Action> = Vec::new();
        if self.keymap.len() > pre_n {
            acts.push(Action::UploadKeymap(self.keymap.generate_keymap()));
            acts.push(Action::Roundtrip);
        }
        proof {
            let (e2, c2) = char_step(pre.entries, ch);
            let upload = if e2.len() > pre.entries.len() {
                upload_actions(e2)
            } else {
                Seq::<ActionView>::empty()
            };
            assert(actions_view(acts@) =~~= upload);
        }
        push_tap(&mut acts, code, settle, delay);
        proof {
            let (s2, av) = spec_type_char(pre, ch, settle, delay);
            assert(actions_view(acts@) =~~= av);
            assert(self.state() =~~= s2);
        }
        acts
    }

    /// How many entries the keymap holds; callers check the capacity
    /// precondition of `step_command` and `type_character` with it.
    pub fn keymap_len(&self) -> (n: usize)
        ensures
            n == self.state().entries.len(),
    {
        self.keymap.len()
    }

    /// A live executor's keymap entries are well formed and within capacity,
    /// which lets its callers invoke the laws below on its state.
    pub proof fn lemma_state_wf(&self)
        requires
            self.wf(),
        ensures
            entries_wf(self.state().entries),
            self.state().entries.len() <= KEYMAP_MAX_ENTRIES,
    {
        self.keymap.lemma_wf_entries();
    }
}

/// Every key event among the actions that type a code sequence carries one of
/// the given codes, so all its codes stay within the given bound.
proof fn lemma_taps_keycodes(codes: Seq<u32>, settle: u64, delay: u64, bound: u32)
    requires
        forall|i: int| 0 <= i < codes.len() ==> 1 <= #[trigger] codes[i] <= bound,
    ensures
        forall|j: int|
            0 <= j < taps(codes, settle, delay).len() ==> ((#[trigger] taps(
                codes,
                settle,
                delay,
            )[j]) matches ActionView::SendKey { keycode, pressed } ==> 1 <= keycode <= bound),
    decreases codes.len(),
{
    if codes.len() > 0 {
        assert(forall|i: int|
            0 <= i < codes.skip(1).len() ==> 1 <= #[trigger] codes.skip(1)[i] <= bound);
        lemma_taps_keycodes(codes.skip(1), settle, delay, bound);
        let t = taps(codes, settle, delay);
        let head = tap_with_delay(codes[0], settle, delay);
        let tail = taps(codes.skip(1), settle, delay);
        assert forall|j: int|
            0 <= j < t.len() implies ((#[trigger] t[j]) matches ActionView::SendKey {
            keycode,
            pressed,
        } ==> 1 <= keycode <= bound) by {
            if j < head.len() {
                assert(t[j] == head[j]);
            } else {
                assert(t[j] == tail[j - head.len()]);
            }
        }
    }
}

/// The synchronization law: a step never reassigns a code the keymap already
/// holds, and every key event it emits carries a code that the keymap
/// confirmed by the step's own upload — where the step grew the keymap — or
/// by an earlier one binds; where the keymap grew, the upload of its full
/// rendering and the roundtrip that confirms it stand before every other
/// action of the step.
pub proof fn lemma_step_synchronized(s: ExecState, c: CommandView, settle: u64)
    requires
        entries_wf(s.entries),
        s.entries.len() + spec_growth(c) <= KEYMAP_MAX_ENTRIES,
    ensures
        match spec_step(s, c, settle) {
            Ok((s2, sv)) => {
                &&& entries_wf(s2.entries)
                &&& s.entries.len() <= s2.entries.len()
                &&& s2.entries.take(s.entries.len() as int) == s.entries
                &&& (sv matches StepView::Acts(acts) ==> {
                    &&& (s2.entries.len() > s.entries.len() ==> acts.len() >= 2 && acts[0]
                        == ActionView::UploadKeymap(spec_render_keymap(s2.entries)) && acts[1]
                        == ActionView::Roundtrip)
                    &&& forall|j: int|
                        0 <= j < acts.len() ==> ((#[trigger] acts[j]) matches ActionView::SendKey {
                            keycode,
                            pressed,
                        } ==> 1 <= keycode <= s2.entries.len() && (s2.entries.len()
                            > s.entries.len() ==> j >= 2))
                })
            },
            Err(_) => true,
        },
{
    match c {
        CommandView::Text { text, delay } => {
            lemma_text_step_props(s.entries, text);
            let (e2, codes) = text_step(s.entries, text);
            lemma_taps_keycodes(codes, settle, delay, e2.len() as u32);
            let up = if e2.len() > s.entries.len() {
                upload_actions(e2)
            } else {
                Seq::<ActionView>::empty()
            };
            let body = taps(codes, settle, delay);
            let acts = up + body;
            assert forall|j: int|
                0 <= j < acts.len() implies ((#[trigger] acts[j]) matches ActionView::SendKey {
                keycode,
                pressed,
            } ==> 1 <= keycode <= e2.len() && (e2.len() > s.entries.len() ==> j >= 2)) by {
                if j < up.len() {
                    assert(acts[j] == up[j]);
                } else {
                    assert(acts[j] == body[j - up.len()]);
                }
            }
        },
        CommandView::ModPress(m) => {
            assert(s.entries.take(s.entries.len() as int) =~= s.entries);
        },
        CommandView::ModRelease(m) => {
            assert(s.entries.take(s.entries.len() as int) =~= s.entries);
        },
        CommandView::KeyPress(name) => {
            lemma_key_step_synchronized(s, name, true);
        },
        CommandView::KeyRelease(name) => {
            lemma_key_step_synchronized(s, name, false);
        },
        CommandView::Sleep(ms) => {
            assert(s.entries.take(s.entries.len() as int) =~= s.entries);
        },
        CommandView::StdinText { delay } => {
            assert(s.entries.take(s.entries.len() as int) =~= s.entries);
        },
    }
}

/// The synchronization law for one typed character, as the byte-source path
/// types them: the code the tap presses lies within the keymap, and where
/// the character grew the keymap, the upload of its full rendering and its
/// roundtrip precede the tap.
pub proof fn lemma_type_char_synchronized(s: ExecState, c: char, settle: u64, delay: u64)
    requires
        entries_wf(s.entries),
        s.entries.len() + 1 <= KEYMAP_MAX_ENTRIES,
    ensures
        ({
            let (s2, acts) = spec_type_char(s, c, settle, delay);
            &&& entries_wf(s2.entries)
            &&& s.entries.len() <= s2.entries.len()
            &&& s2.entries.take(s.entries.len() as int) == s.entries
            &&& (s2.entries.len() > s.entries.len() ==> acts.len() >= 2 && acts[0]
                == ActionView::UploadKeymap(spec_render_keymap(s2.entries)) && acts[1]
                == ActionView::Roundtrip)
            &&& forall|j: int|
                0 <= j < acts.len() ==> ((#[trigger] acts[j]) matches ActionView::SendKey {
                    keycode,
                    pressed,
                } ==> 1 <= keycode <= s2.entries.len() && (s2.entries.len() > s.entries.len()
                    ==> j >= 2))
        }),
{
    lemma_char_step_props(s.entries, c);
    let (e2, code) = char_step(s.entries, c);
    let up = if e2.len() > s.entries.len() {
        upload_actions(e2)
    } else {
        Seq::<ActionView>::empty()
    };
    let body = tap_with_delay(code, settle, delay);
    let acts = up + body;
    assert forall|j: int|
        0 <= j < acts.len() implies ((#[trigger] acts[j]) matches ActionView::SendKey {
        keycode,
        pressed,
    } ==> 1 <= keycode <= e2.len() && (e2.len() > s.entries.len() ==> j >= 2)) by {
        if j < up.len() {
            assert(acts[j] == up[j]);
        } else {
            assert(acts[j] == body[j - up.len()]);
        }
    }
}

/// The synchronization law for one named key.
proof fn lemma_key_step_synchronized(s: ExecState, name: Seq<char>, pressed: bool)
    requires
        entries_wf(s.entries),
        s.entries.len() + 1 <= KEYMAP_MAX_ENTRIES,
    ensures
        match spec_key_step(s, name, pressed) {
            Ok((s2, sv)) => {
                &&& entries_wf(s2.entries)
                &&& s.entries.len() <= s2.entries.len()
                &&& s2.entries.take(s.entries.len() as int) == s.entries
                &&& (sv matches StepView::Acts(acts) ==> {
                    &&& (s2.entries.len() > s.entries.len() ==> acts.len() >= 2 && acts[0]
                        == ActionView::UploadKeymap(spec_render_keymap(s2.entries)) && acts[1]
                        == ActionView::Roundtrip)
                    &&& forall|j: int|
                        0 <= j < acts.len() ==> ((#[trigger] acts[j]) matches ActionView::SendKey {
                            keycode,
                            pressed: p,
                        } ==> 1 <= keycode <= s2.entries.len() && (s2.entries.len()
                            > s.entries.len() ==> j >= 2))
                })
            },
            Err(_) => true,
        },
{
    let k = spec_resolve_key_name(name);
    if k != KEYSYM_NOSYMBOL {
        lemma_sym_step_props(s.entries, k);
        let (e2, code) = sym_step(s.entries, k);
        let up = if e2.len() > s.entries.len() {
            upload_actions(e2)
        } else {
            Seq::<ActionView>::empty()
        };
        let body = seq![ActionView::SendKey { keycode: code, pressed }, ActionView::Roundtrip];
        let acts = up + body;
        assert forall|j: int|
            0 <= j < acts.len() implies ((#[trigger] acts[j]) matches ActionView::SendKey {
            keycode,
            pressed: p,
        } ==> 1 <= keycode <= e2.len() && (e2.len() > s.entries.len() ==> j >= 2)) by {
            if j < up.len() {
                assert(acts[j] == up[j]);
            } else {
                assert(acts[j] == body[j - up.len()]);
            }
        }
    }
}

} // verus!
