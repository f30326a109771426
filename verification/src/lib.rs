//! Synthesis of virtual-keyboard input: a dynamically grown symbolic keymap,
//! a modifier state machine, a streaming UTF-8 decoder, and a command executor
//! that turns typing commands into an ordered stream of protocol actions.

use vstd::prelude::*;
use vstd::string::*;

pub mod decoder;
pub mod executor;
pub mod keymap;
pub mod keysym;

pub use executor::CommandExecutor;
pub use keymap::KeymapBuilder;
pub use keymap::KeymapEntry;

verus! {

/// Modifier keys, each standing for one bit of the transmitted modifier mask.
#[derive(Debug, Clone, Copy, PartialEq, Eq, Structural)]
pub enum Modifier {
    Shift,
    CapsLock,
    Ctrl,
    Alt,
    Logo,
    AltGr,
}

impl Modifier {
    /// The bit this modifier occupies in the protocol's modifier mask.
    pub open spec fn spec_mask(self) -> u32 {
        match self {
            Modifier::Shift => 1,
            Modifier::CapsLock => 2,
            Modifier::Ctrl => 4,
            Modifier::Alt => 8,
            Modifier::Logo => 64,
            Modifier::AltGr => 128,
        }
    }

    /// The bit this modifier occupies in the protocol's modifier mask.
    #[verifier::when_used_as_spec(spec_mask)]
    pub fn mask(self) -> (r: u32)
        ensures
            r == self.spec_mask(),
    {
        match self {
            Modifier::Shift => 1,
            Modifier::CapsLock => 2,
            Modifier::Ctrl => 4,
            Modifier::Alt => 8,
            Modifier::Logo => 64,
            Modifier::AltGr => 128,
        }
    }
}

/// Pressing a modifier sets its bit in the held mask.
pub fn press_mask(mask: u32, m: Modifier) -> (r: u32)
    ensures
        r == mask | m.spec_mask(),
{
    mask | m.mask()
}

/// Releasing a modifier clears its bit in the held mask; releasing one that is
/// not held leaves the mask unchanged.
pub fn release_mask(mask: u32, m: Modifier) -> (r: u32)
    ensures
        r == mask & !m.spec_mask(),
{
    mask & !m.mask()
}

/// Pressing and then releasing a modifier gives the same mask as releasing it
/// alone; if the modifier was not held to begin with, the original mask comes
/// back unchanged.
pub proof fn lemma_press_release_round_trip(mask: u32, m: Modifier)
    ensures
        (mask | m.spec_mask()) & !m.spec_mask() == mask & !m.spec_mask(),
        mask & m.spec_mask() == 0 ==> (mask | m.spec_mask()) & !m.spec_mask() == mask,
{
    let b = m.spec_mask();
    assert((mask | b) & !b == mask & !b) by (bit_vector);
    assert(mask & b == 0 ==> mask & !b == mask) by (bit_vector);
}

/// Split a held-modifier mask into the two sub-masks the protocol transmits:
/// every bit except Caps Lock's is "depressed", Caps Lock's bit is "locked".
pub fn split_modifiers(mask: u32) -> (r: (u32, u32))
    ensures
        r.0 == mask & !Modifier::CapsLock.spec_mask(),
        r.1 == mask & Modifier::CapsLock.spec_mask(),
{
    (mask & !2, mask & 2)
}

/// Splitting loses no bit and invents none: the two sub-masks are disjoint and
/// together give back the mask, and for a mask without the Caps Lock bit the
/// locked sub-mask is zero while the depressed sub-mask is the mask itself.
pub proof fn lemma_split_modifiers_partition(mask: u32)
    ensures
        (mask & !2) | (mask & 2) == mask,
        (mask & !2) & (mask & 2) == 0,
        mask & 2 == 0 ==> mask & !2 == mask,
{
    assert((mask & !2) | (mask & 2) == mask) by (bit_vector);
    assert((mask & !2) & (mask & 2) == 0) by (bit_vector);
    assert(mask & 2 == 0 ==> mask & !2 == mask) by (bit_vector);
}

/// The ASCII-lowercased form of a character: letters `A`..`Z` become
/// `a`..`z`, everything else is unchanged.
pub open spec fn lower_char(c: char) -> char {
    if 0x41 <= c as u32 <= 0x5a {
        (((c as u32) + 32) as u32) as char
    } else {
        c
    }
}

/// The ASCII-lowercased form of a character sequence.
pub open spec fn ascii_lower(s: Seq<char>) -> Seq<char> {
    s.map_values(|c: char| lower_char(c))
}

/// Lowercase one character, as `lower_char` describes.
pub fn lower_char_exec(c: char) -> (r: char)
    ensures
        r == lower_char(c),
{
    let code: u32 = c as u32;
    if 0x41 <= code && code <= 0x5a {
        let lowered: u32 = code + 32;
        let r = scalar_to_char(lowered);
        proof {
            vstd::utf8::char_u32_cast(r, lowered);
        }
        r
    } else {
        c
    }
}

/// Turn a value known to be a Unicode scalar into its character.
fn scalar_to_char(code: u32) -> (r: char)
    requires
        vstd::utf8::is_scalar(code),
    ensures
        r as u32 == code,
{
    match char::from_u32(code) {
        Some(c) => c,
        None => ' ',
    }
}

/// Relies on `char::from_u32` of the standard library: it returns the
/// character with the given scalar value, and `None` exactly when the value
/// is no Unicode scalar (a surrogate, or above the Unicode range).
pub assume_specification[ char::from_u32 ](v: u32) -> (r: Option<char>)
    ensures
        r is Some <==> vstd::utf8::is_scalar(v),
        r matches Some(c) ==> c as u32 == v,
;

/// Compare a name against an already-lowercase target, ignoring the ASCII
/// case of the name.
fn eq_ignore_ascii_case(name: &str, target: &str) -> (b: bool)
    ensures
        b == (ascii_lower(name@) == target@),
{
    let n = name.unicode_len();
    if n != target.unicode_len() {
        return false;
    }
    let mut i: usize = 0;
    while i < n
        invariant
            0 <= i <= n,
            n == name@.len(),
            n == target@.len(),
            forall|j: int| 0 <= j < i ==> lower_char(name@[j]) == target@[j],
        decreases n - i,
    {
        let c = lower_char_exec(name.get_char(i));
        if c != target.get_char(i) {
            assert(ascii_lower(name@)[i as int] != target@[i as int]);
            return false;
        }
        i = i + 1;
    }
    proof {
        assert(ascii_lower(name@) =~= target@);
    }
    true
}

/// Where a modifier name resolves: the match is ASCII-case-insensitive, and
/// `win` is an alias for `logo`.
pub open spec fn spec_modifier_from_name(s: Seq<char>) -> Option<Modifier> {
    let l = ascii_lower(s);
    if l == "shift"@ {
        Some(Modifier::Shift)
    } else if l == "capslock"@ {
        Some(Modifier::CapsLock)
    } else if l == "ctrl"@ {
        Some(Modifier::Ctrl)
    } else if l == "alt"@ {
        Some(Modifier::Alt)
    } else if l == "logo"@ || l == "win"@ {
        Some(Modifier::Logo)
    } else if l == "altgr"@ {
        Some(Modifier::AltGr)
    } else {
        None
    }
}

impl Modifier {
    /// Resolve a textual modifier name, ignoring ASCII case; `logo` and `win`
    /// name the same modifier, and any other name is unknown.
    pub fn from_name(name: &str) -> (r: Option<Modifier>)
        ensures
            r == spec_modifier_from_name(name@),
    {
        if eq_ignore_ascii_case(name, "shift") {
            Some(Modifier::Shift)
        } else if eq_ignore_ascii_case(name, "capslock") {
            Some(Modifier::CapsLock)
        } else if eq_ignore_ascii_case(name, "ctrl") {
            Some(Modifier::Ctrl)
        } else if eq_ignore_ascii_case(name, "alt") {
            Some(Modifier::Alt)
        } else if eq_ignore_ascii_case(name, "logo") || eq_ignore_ascii_case(name, "win") {
            Some(Modifier::Logo)
        } else if eq_ignore_ascii_case(name, "altgr") {
            Some(Modifier::AltGr)
        } else {
            None
        }
    }
}

/// Two modifier names that differ only in ASCII case resolve alike.
pub proof fn lemma_modifier_name_case_insensitive(n1: Seq<char>, n2: Seq<char>)
    requires
        ascii_lower(n1) == ascii_lower(n2),
    ensures
        spec_modifier_from_name(n1) == spec_modifier_from_name(n2),
{
}

/// What can go wrong while interpreting commands.
#[derive(Debug, Clone, Copy, PartialEq, Eq, Structural)]
pub enum WrtypeError {
    /// A textual key name that the keysym name table does not know.
    UnknownKeyName,
    /// A modifier name outside the accepted set.
    InvalidModifierName,
    /// The compositor channel could not carry an upload, event or roundtrip.
    ChannelFailure,
    /// The byte source for stdin typing failed.
    InputReadFailure,
}

impl WrtypeError {
    /// A short description of the failure.
    pub fn message(&self) -> (r: String)
        ensures
            *self is UnknownKeyName ==> r@ == "unknown key name"@,
            *self is InvalidModifierName ==> r@ == "invalid modifier name"@,
            *self is ChannelFailure ==> r@ == "channel communication failed"@,
            *self is InputReadFailure ==> r@ == "failed to read input"@,
    {
        match self {
            WrtypeError::UnknownKeyName => String::from_str("unknown key name"),
            WrtypeError::InvalidModifierName => String::from_str("invalid modifier name"),
            WrtypeError::ChannelFailure => String::from_str("channel communication failed"),
            WrtypeError::InputReadFailure => String::from_str("failed to read input"),
        }
    }
}

/// One typing operation, consumed by the executor in order. All delays are
/// in milliseconds.
#[derive(Debug, Clone)]
pub enum Command {
    /// Type a string of text, waiting `delay` after each character.
    Text { text: String, delay: u64 },
    /// Press a modifier; it stays held until released.
    ModPress(Modifier),
    /// Release a modifier; releasing one that is not held is a no-op.
    ModRelease(Modifier),
    /// Press a named key; it stays held until released.
    KeyPress(String),
    /// Release a named key.
    KeyRelease(String),
    /// Wait without any protocol interaction.
    Sleep(u64),
    /// Type what arrives on the byte source, waiting `delay` after each
    /// character.
    StdinText { delay: u64 },
}

/// The mathematical shape of a command: text as character sequences.
#[verifier::ext_equal]
pub ghost enum CommandView {
    Text { text: Seq<char>, delay: u64 },
    ModPress(Modifier),
    ModRelease(Modifier),
    KeyPress(Seq<char>),
    KeyRelease(Seq<char>),
    Sleep(u64),
    StdinText { delay: u64 },
}

impl View for Command {
    type V = CommandView;

    open spec fn view(&self) -> CommandView {
        match self {
            Command::Text { text, delay } => CommandView::Text { text: text@, delay: *delay },
            Command::ModPress(m) => CommandView::ModPress(*m),
            Command::ModRelease(m) => CommandView::ModRelease(*m),
            Command::KeyPress(k) => CommandView::KeyPress(k@),
            Command::KeyRelease(k) => CommandView::KeyRelease(k@),
            Command::Sleep(ms) => CommandView::Sleep(*ms),
            Command::StdinText { delay } => CommandView::StdinText { delay: *delay },
        }
    }
}

/// The views of a sequence of strings.
pub open spec fn strings_view(v: Seq<String>) -> Seq<Seq<char>> {
    v.map_values(|s: String| s@)
}

/// The views of a sequence of commands.
pub open spec fn cmds_view(v: Seq<Command>) -> Seq<CommandView> {
    v.map_values(|c: Command| c@)
}

/// Appending one command appends its view.
proof fn lemma_cmds_view_push(s: Seq<Command>, c: Command)
    ensures
        cmds_view(s.push(c)) == cmds_view(s).push(c@),
{
    assert(cmds_view(s.push(c)) =~~= cmds_view(s).push(c@));
}

/// The typing actions requested by a caller, in the shape the command line
/// presents them: lists of texts, modifier names, key names and sleeps, a
/// per-character delay in milliseconds, and whether to read the byte source
/// at the end.
#[derive(Debug, Clone)]
pub struct Args {
    /// Texts to type in order; the text `-` stands for reading the byte
    /// source at that point.
    pub text: Vec<String>,
    /// Modifiers to press.
    pub press_mod: Vec<String>,
    /// Modifiers to release.
    pub release_mod: Vec<String>,
    /// Keys to press and leave held.
    pub press_key: Vec<String>,
    /// Keys to release.
    pub release_key: Vec<String>,
    /// Keys to press and release in one action.
    pub type_key: Vec<String>,
    /// Delay between typed characters, in milliseconds.
    pub delay: u64,
    /// Sleeps to insert, in milliseconds.
    pub sleep: Vec<u64>,
    /// Whether to read and type the byte source after everything else.
    pub stdin: bool,
}

/// The command a text argument stands for: `-` reads the byte source, any
/// other text is typed.
pub open spec fn text_cmd_view(t: Seq<char>, delay: u64) -> CommandView {
    if t == "-"@ {
        CommandView::StdinText { delay }
    } else {
        CommandView::Text { text: t, delay }
    }
}

/// The commands for a list of text arguments.
pub open spec fn spec_text_commands(texts: Seq<Seq<char>>, delay: u64) -> Seq<CommandView> {
    texts.map_values(|t: Seq<char>| text_cmd_view(t, delay))
}

/// Whether every name in the list resolves to a modifier.
pub open spec fn mods_all_valid(names: Seq<Seq<char>>) -> bool {
    forall|i: int| 0 <= i < names.len() ==> spec_modifier_from_name(names[i]) is Some
}

/// The command a modifier name stands for.
pub open spec fn mod_cmd_view(n: Seq<char>, press: bool) -> CommandView
    recommends
        spec_modifier_from_name(n) is Some,
{
    let m = spec_modifier_from_name(n)->0;
    if press {
        CommandView::ModPress(m)
    } else {
        CommandView::ModRelease(m)
    }
}

/// The commands for a list of modifier names.
pub open spec fn spec_mod_commands(names: Seq<Seq<char>>, press: bool) -> Seq<CommandView>
    recommends
        mods_all_valid(names),
{
    names.map_values(|n: Seq<char>| mod_cmd_view(n, press))
}

/// The command a key name stands for.
pub open spec fn key_cmd_view(k: Seq<char>, press: bool) -> CommandView {
    if press {
        CommandView::KeyPress(k)
    } else {
        CommandView::KeyRelease(k)
    }
}

/// The commands for a list of key names.
pub open spec fn spec_key_commands(keys: Seq<Seq<char>>, press: bool) -> Seq<CommandView> {
    keys.map_values(|k: Seq<char>| key_cmd_view(k, press))
}

/// The commands for a list of keys typed in one action: a press directly
/// followed by a release for each.
pub open spec fn spec_type_key_commands(keys: Seq<Seq<char>>) -> Seq<CommandView> {
    Seq::new(
        2 * keys.len(),
        |i: int|
            if i % 2 == 0 {
                CommandView::KeyPress(keys[i / 2])
            } else {
                CommandView::KeyRelease(keys[i / 2])
            },
    )
}

/// The commands for a list of sleeps.
pub open spec fn spec_sleep_commands(times: Seq<u64>) -> Seq<CommandView> {
    times.map_values(|t: u64| CommandView::Sleep(t))
}

/// The full command list an argument set stands for, in the order the
/// executor will walk it: texts, modifier presses, modifier releases, key
/// presses, key releases, typed keys, sleeps, and last the byte source.
pub open spec fn spec_parse_commands(
    text: Seq<Seq<char>>,
    press_mod: Seq<Seq<char>>,
    release_mod: Seq<Seq<char>>,
    press_key: Seq<Seq<char>>,
    release_key: Seq<Seq<char>>,
    type_key: Seq<Seq<char>>,
    delay: u64,
    sleep: Seq<u64>,
    stdin: bool,
) -> Seq<CommandView>
    recommends
        mods_all_valid(press_mod),
        mods_all_valid(release_mod),
{
    spec_text_commands(text, delay) + spec_mod_commands(press_mod, true) + spec_mod_commands(
        release_mod,
        false,
    ) + spec_key_commands(press_key, true) + spec_key_commands(release_key, false)
        + spec_type_key_commands(type_key) + spec_sleep_commands(sleep) + (if stdin {
        seq![CommandView::StdinText { delay }]
    } else {
        Seq::<CommandView>::empty()
    })
}

/// Turn an argument set into the command list it stands for. Fails exactly
/// when some modifier name does not resolve, and then changes nothing.
pub fn parse_commands(args: Args) -> (r: Result<Vec<Command>, WrtypeError>)
    ensures
        ({
            let text = strings_view(args.text@);
            let pm = strings_view(args.press_mod@);
            let rm = strings_view(args.release_mod@);
            let pk = strings_view(args.press_key@);
            let rk = strings_view(args.release_key@);
            let tk = strings_view(args.type_key@);
            if mods_all_valid(pm) && mods_all_valid(rm) {
                r matches Ok(cmds) && cmds_view(cmds@) == spec_parse_commands(
                    text,
                    pm,
                    rm,
                    pk,
                    rk,
                    tk,
                    args.delay,
                    args.sleep@,
                    args.stdin,
                )
            } else {
                r == Err::<Vec<Command>, WrtypeError>(WrtypeError::InvalidModifierName)
            }
        }),
{
    let ghost text = strings_view(args.text@);
    let ghost pm = strings_view(args.press_mod@);
    let ghost rm = strings_view(args.release_mod@);
    let ghost pk = strings_view(args.press_key@);
    let ghost rk = strings_view(args.release_key@);
    let ghost tk = strings_view(args.type_key@);
    let delay = args.delay;
    let mut cmds: Vec<Command> = Vec::new();

    let mut i: usize = 0;
    let n_text = args.text.len();
    while i < n_text
        invariant
            0 <= i <= n_text,
            n_text == text.len(),
            text == strings_view(args.text@),
            delay == args.delay,
            cmds_view(cmds@) == spec_text_commands(text.take(i as int), delay),
        decreases n_text - i,
    {
        let t = &args.text[i];
        let is_dash = t.unicode_len() == 1 && t.get_char(0) == '-';
        proof {
            reveal_strlit("-");
            if is_dash {
                assert(t@ =~= "-"@);
            } else {
                if t@ == "-"@ {
                    assert(t@.len() == 1);
                    assert(t@[0] == '-');
                    assert(false);
                }
            }
        }
        let ghost pre = cmds@;
        if is_dash {
            let cmd = Command::StdinText { delay };
            let ghost gc = cmd;
            cmds.push(cmd);
            proof {
                lemma_cmds_view_push(pre, gc);
            }
        } else {
            let cmd = Command::Text { text: t.clone(), delay };
            let ghost gc = cmd;
            cmds.push(cmd);
            proof {
                lemma_cmds_view_push(pre, gc);
            }
        }
        proof {
            assert(cmds_view(cmds@) =~~= spec_text_commands(text.take(i + 1), delay));
        }
        i = i + 1;
    }
    proof {
        assert(text.take(n_text as int) =~= text);
    }

    let ghost part1 = spec_text_commands(text, delay);
    let mut i: usize = 0;
    let n_pm = args.press_mod.len();
    while i < n_pm
        invariant
            0 <= i <= n_pm,
            n_pm == pm.len(),
            pm == strings_view(args.press_mod@),
            mods_all_valid(pm.take(i as int)),
            cmds_view(cmds@) == part1 + spec_mod_commands(pm.take(i as int), true),
        decreases n_pm - i,
    {
        match Modifier::from_name(args.press_mod[i].as_str()) {
            None => {
                proof {
                    assert(spec_modifier_from_name(pm[i as int]) is None);
                }
                return Err(WrtypeError::InvalidModifierName);
            },
            Some(m) => {
                let ghost pre = cmds@;
                cmds.push(Command::ModPress(m));
                proof {
                    lemma_cmds_view_push(pre, Command::ModPress(m));
                    assert(mods_all_valid(pm.take(i + 1))) by {
                        assert forall|j: int| 0 <= j < i + 1 implies spec_modifier_from_name(
                            #[trigger] pm.take(i + 1)[j],
                        ) is Some by {
                            assert(pm.take(i + 1)[j] == pm[j]);
                            if j < i {
                                assert(pm.take(i as int)[j] == pm[j]);
                            }
                        }
                    }
                    assert(cmds_view(cmds@) =~~= part1 + spec_mod_commands(pm.take(i + 1), true));
                }
                i = i + 1;
            },
        }
    }
    proof {
        assert(pm.take(n_pm as int) =~= pm);
    }

    let ghost part2 = part1 + spec_mod_commands(pm, true);
    let mut i: usize = 0;
    let n_rm = args.release_mod.len();
    while i < n_rm
        invariant
            0 <= i <= n_rm,
            n_rm == rm.len(),
            rm == strings_view(args.release_mod@),
            mods_all_valid(pm),
            mods_all_valid(rm.take(i as int)),
            cmds_view(cmds@) == part2 + spec_mod_commands(rm.take(i as int), false),
        decreases n_rm - i,
    {
        match Modifier::from_name(args.release_mod[i].as_str()) {
            None => {
                proof {
                    assert(spec_modifier_from_name(rm[i as int]) is None);
                }
                return Err(WrtypeError::InvalidModifierName);
            },
            Some(m) => {
                let ghost pre = cmds@;
                cmds.push(Command::ModRelease(m));
                proof {
                    lemma_cmds_view_push(pre, Command::ModRelease(m));
                    assert(mods_all_valid(rm.take(i + 1))) by {
                        assert forall|j: int| 0 <= j < i + 1 implies spec_modifier_from_name(
                            #[trigger] rm.take(i + 1)[j],
                        ) is Some by {
                            assert(rm.take(i + 1)[j] == rm[j]);
                            if j < i {
                                assert(rm.take(i as int)[j] == rm[j]);
                            }
                        }
                    }
                    assert(cmds_view(cmds@) =~~= part2 + spec_mod_commands(rm.take(i + 1), false));
                }
                i = i + 1;
            },
        }
    }
    proof {
        assert(rm.take(n_rm as int) =~= rm);
    }

    let ghost part3 = part2 + spec_mod_commands(rm, false);
    let mut i: usize = 0;
    let n_pk = args.press_key.len();
    while i < n_pk
        invariant
            0 <= i <= n_pk,
            n_pk == pk.len(),
            pk == strings_view(args.press_key@),
            cmds_view(cmds@) == part3 + spec_key_commands(pk.take(i as int), true),
        decreases n_pk - i,
    {
        let cmd = Command::KeyPress(args.press_key[i].clone());
        let ghost gc = cmd;
        let ghost pre = cmds@;
        cmds.push(cmd);
        proof {
            lemma_cmds_view_push(pre, gc);
            assert(cmds_view(cmds@) =~~= part3 + spec_key_commands(pk.take(i + 1), true));
        }
        i = i + 1;
    }
    proof {
        assert(pk.take(n_pk as int) =~= pk);
    }

    let ghost part4 = part3 + spec_key_commands(pk, true);
    let mut i: usize = 0;
    let n_rk = args.release_key.len();
    while i < n_rk
        invariant
            0 <= i <= n_rk,
            n_rk == rk.len(),
            rk == strings_view(args.release_key@),
            cmds_view(cmds@) == part4 + spec_key_commands(rk.take(i as int), false),
        decreases n_rk - i,
    {
        let cmd = Command::KeyRelease(args.release_key[i].clone());
        let ghost gc = cmd;
        let ghost pre = cmds@;
        cmds.push(cmd);
        proof {
            lemma_cmds_view_push(pre, gc);
            assert(cmds_view(cmds@) =~~= part4 + spec_key_commands(rk.take(i + 1), false));
        }
        i = i + 1;
    }
    proof {
        assert(rk.take(n_rk as int) =~= rk);
    }

    let ghost part5 = part4 + spec_key_commands(rk, false);
    let mut i: usize = 0;
    let n_tk = args.type_key.len();
    while i < n_tk
        invariant
            0 <= i <= n_tk,
            n_tk == tk.len(),
            tk == strings_view(args.type_key@),
            cmds_view(cmds@) == part5 + spec_type_key_commands(tk.take(i as int)),
        decreases n_tk - i,
    {
        let cmd1 = Command::KeyPress(args.type_key[i].clone());
        let ghost gc1 = cmd1;
        let ghost pre1 = cmds@;
        cmds.push(cmd1);
        let cmd2 = Command::KeyRelease(args.type_key[i].clone());
        let ghost gc2 = cmd2;
        let ghost pre2 = cmds@;
        cmds.push(cmd2);
        proof {
            lemma_cmds_view_push(pre1, gc1);
            lemma_cmds_view_push(pre2, gc2);
            assert(cmds_view(cmds@) =~~= part5 + spec_type_key_commands(tk.take(i + 1)));
        }
        i = i + 1;
    }
    proof {
        assert(tk.take(n_tk as int) =~= tk);
    }

    let ghost part6 = part5 + spec_type_key_commands(tk);
    let mut i: usize = 0;
    let n_sl = args.sleep.len();
    while i < n_sl
        invariant
            0 <= i <= n_sl,
            n_sl == args.sleep@.len(),
            cmds_view(cmds@) == part6 + spec_sleep_commands(args.sleep@.take(i as int)),
        decreases n_sl - i,
    {
        let cmd = Command::Sleep(args.sleep[i]);
        let ghost gc = cmd;
        let ghost pre = cmds@;
        cmds.push(cmd);
        proof {
            lemma_cmds_view_push(pre, gc);
            assert(cmds_view(cmds@) =~~= part6 + spec_sleep_commands(args.sleep@.take(i + 1)));
        }
        i = i + 1;
    }
    proof {
        assert(args.sleep@.take(n_sl as int) =~= args.sleep@);
    }

    if args.stdin {
        let cmd = Command::StdinText { delay };
        let ghost gc = cmd;
        let ghost pre = cmds@;
        cmds.push(cmd);
        proof {
            lemma_cmds_view_push(pre, gc);
        }
    }
    proof {
        assert(cmds_view(cmds@) =~~= spec_parse_commands(
            text,
            pm,
            rm,
            pk,
            rk,
            tk,
            delay,
            args.sleep@,
            args.stdin,
        ));
    }
    Ok(cmds)
}

/// The command list of a keyboard shortcut: the modifiers pressed in the
/// given order, the key pressed and released, and the modifiers released in
/// reverse order, so that nesting is kept.
pub open spec fn spec_shortcut_commands(mods: Seq<Modifier>, key: Seq<char>) -> Seq<CommandView> {
    mods.map_values(|m: Modifier| CommandView::ModPress(m)) + seq![
        CommandView::KeyPress(key),
        CommandView::KeyRelease(key),
    ] + mods.reverse().map_values(|m: Modifier| CommandView::ModRelease(m))
}

/// Build the command list of a keyboard shortcut, as
/// `spec_shortcut_commands` describes.
pub fn shortcut_commands(modifiers: &Vec<Modifier>, key: &str) -> (r: Vec<Command>)
    ensures
        cmds_view(r@) == spec_shortcut_commands(modifiers@, key@),
{
    let mut cmds: Vec<Command> = Vec::new();
    let n = modifiers.len();
    let ghost presses = modifiers@.map_values(|m: Modifier| CommandView::ModPress(m));
    let mut i: usize = 0;
    while i < n
        invariant
            0 <= i <= n,
            n == modifiers@.len(),
            presses == modifiers@.map_values(|m: Modifier| CommandView::ModPress(m)),
            cmds_view(cmds@) == presses.take(i as int),
        decreases n - i,
    {
        let ghost pre = cmds@;
        cmds.push(Command::ModPress(modifiers[i]));
        proof {
            lemma_cmds_view_push(pre, Command::ModPress(modifiers@[i as int]));
            assert(cmds_view(cmds@) =~~= presses.take(i + 1));
        }
        i = i + 1;
    }
    proof {
        assert(presses.take(n as int) =~= presses);
    }
    let ghost pre = cmds@;
    let cmd = Command::KeyPress(String::from_str(key));
    let ghost gc1 = cmd;
    cmds.push(cmd);
    proof {
        lemma_cmds_view_push(pre, gc1);
    }
    let ghost pre = cmds@;
    let cmd = Command::KeyRelease(String::from_str(key));
    let ghost gc2 = cmd;
    cmds.push(cmd);
    proof {
        lemma_cmds_view_push(pre, gc2);
    }
    let ghost part2 = presses + seq![
        CommandView::KeyPress(key@),
        CommandView::KeyRelease(key@),
    ];
    proof {
        assert(cmds_view(cmds@) =~~= part2);
    }
    let ghost releases = modifiers@.reverse().map_values(|m: Modifier| CommandView::ModRelease(m));
    let mut j: usize = 0;
    while j < n
        invariant
            0 <= j <= n,
            n == modifiers@.len(),
            part2 == presses + seq![CommandView::KeyPress(key@), CommandView::KeyRelease(key@)],
            releases == modifiers@.reverse().map_values(
                |m: Modifier| CommandView::ModRelease(m),
            ),
            cmds_view(cmds@) == part2 + releases.take(j as int),
        decreases n - j,
    {
        let ghost pre = cmds@;
        cmds.push(Command::ModRelease(modifiers[n - 1 - j]));
        proof {
            lemma_cmds_view_push(pre, Command::ModRelease(modifiers@[n - 1 - j]));
            assert(modifiers@.reverse()[j as int] == modifiers@[n - 1 - j]);
            assert(cmds_view(cmds@) =~~= part2 + releases.take(j + 1));
        }
        j = j + 1;
    }
    proof {
        assert(releases.take(n as int) =~= releases);
        assert(cmds_view(cmds@) =~~= spec_shortcut_commands(modifiers@, key@));
    }
    cmds
}

} // verus!


