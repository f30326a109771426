//! The dynamic keymap: stable codes allocated on demand for characters and
//! keysyms, two lookup indices kept consistent with the allocation order, and
//! the textual rendering uploaded to the compositor channel.

use vstd::prelude::*;
use vstd::string::*;
use std::collections::HashMap;
use crate::WrtypeError;
use crate::keysym::KEYSYM_ESCAPE;
use crate::keysym::KEYSYM_NOSYMBOL;
use crate::keysym::KEYSYM_RETURN;
use crate::keysym::KEYSYM_TAB;
use crate::keysym::char_to_keysym;
use crate::keysym::decimal_chars;
use crate::keysym::keysym_display_name;
use crate::keysym::keysym_of_char;
use crate::keysym::resolve_key_name;
use crate::keysym::spec_decimal;
use crate::keysym::spec_keysym_display_name;
use crate::keysym::spec_resolve_key_name;
use crate::keysym::string_from_chars;

verus! {

broadcast use vstd::std_specs::hash::group_hash_axioms;

/// The most entries a keymap can hold, so that every code and every rendered
/// number fits its machine type.
pub const KEYMAP_MAX_ENTRIES: usize = 0xffff0000;

/// One key of the keymap: a code, the keysym it is bound to, and the
/// character it was allocated for, if any.
#[derive(Debug, Clone, Copy)]
pub struct KeymapEntry {
    /// The key's code: one more than its position in the allocation order.
    pub keycode: u32,
    /// The keysym the code is bound to.
    pub keysym: u32,
    /// The character the entry was allocated for, where there is one.
    pub character: Option<char>,
}

/// The character index an entry sequence induces: the code of the last entry
/// allocated for each character.
pub open spec fn char_map_of(entries: Seq<KeymapEntry>) -> Map<u32, u32>
    decreases entries.len(),
{
    if entries.len() == 0 {
        Map::empty()
    } else {
        let m = char_map_of(entries.drop_last());
        let e = entries.last();
        match e.character {
            Some(c) => m.insert(c as u32, e.keycode),
            None => m,
        }
    }
}

/// The keysym index an entry sequence induces: the code of the last entry
/// bound to each keysym.
pub open spec fn sym_map_of(entries: Seq<KeymapEntry>) -> Map<u32, u32>
    decreases entries.len(),
{
    if entries.len() == 0 {
        Map::empty()
    } else {
        sym_map_of(entries.drop_last()).insert(entries.last().keysym, entries.last().keycode)
    }
}

/// The keysym a character maps to: newline, tab and escape go to the Return,
/// Tab and Escape keys, every other character to its table keysym.
pub open spec fn spec_char_keysym(c: char) -> u32 {
    if c == '\n' {
        KEYSYM_RETURN
    } else if c == '\t' {
        KEYSYM_TAB
    } else if c == '\x1b' {
        KEYSYM_ESCAPE
    } else {
        keysym_of_char(c)
    }
}

/// What asking the keymap for a character does: a cached character keeps its
/// code and the keymap unchanged; a new one is appended with the next code.
pub open spec fn char_step(entries: Seq<KeymapEntry>, c: char) -> (Seq<KeymapEntry>, u32) {
    let m = char_map_of(entries);
    if m.contains_key(c as u32) {
        (entries, m[c as u32])
    } else {
        let code = (entries.len() + 1) as u32;
        (
            entries.push(
                KeymapEntry { keycode: code, keysym: spec_char_keysym(c), character: Some(c) },
            ),
            code,
        )
    }
}

/// What asking the keymap for a keysym does: a cached keysym keeps its code
/// and the keymap unchanged; a new one is appended with the next code and no
/// character.
pub open spec fn sym_step(entries: Seq<KeymapEntry>, k: u32) -> (Seq<KeymapEntry>, u32) {
    let m = sym_map_of(entries);
    if m.contains_key(k) {
        (entries, m[k])
    } else {
        let code = (entries.len() + 1) as u32;
        (entries.push(KeymapEntry { keycode: code, keysym: k, character: None }), code)
    }
}

/// What asking the keymap for a whole text does: each character in order, as
/// `char_step` describes, collecting the codes.
pub open spec fn text_step(entries: Seq<KeymapEntry>, text: Seq<char>) -> (
    Seq<KeymapEntry>,
    Seq<u32>,
)
    decreases text.len(),
{
    if text.len() == 0 {
        (entries, Seq::empty())
    } else {
        let (e1, k) = char_step(entries, text[0]);
        let (e2, ks) = text_step(e1, text.skip(1));
        (e2, seq![k] + ks)
    }
}

/// Codes are positions: an entry sequence is well formed when each entry's
/// code is one more than its position in the allocation order.
pub open spec fn entries_wf(entries: Seq<KeymapEntry>) -> bool {
    forall|i: int| 0 <= i < entries.len() ==> (#[trigger] entries[i]).keycode == i + 1
}

/// In a well-formed sequence, every code the character index caches lies
/// within the sequence.
proof fn lemma_char_map_bounds(entries: Seq<KeymapEntry>)
    requires
        entries_wf(entries),
    ensures
        forall|k: u32|
            char_map_of(entries).contains_key(k) ==> 1 <= #[trigger] char_map_of(entries)[k]
                <= entries.len(),
    decreases entries.len(),
{
    if entries.len() > 0 {
        let pre = entries.drop_last();
        assert(entries_wf(pre)) by {
            assert(forall|i: int| 0 <= i < pre.len() ==> #[trigger] pre[i] == entries[i]);
        }
        lemma_char_map_bounds(pre);
        assert(entries.last().keycode == entries.len());
        let m = char_map_of(entries);
        let mp = char_map_of(pre);
        assert forall|k: u32| m.contains_key(k) implies 1 <= #[trigger] m[k] <= entries.len() by {
            if entries.last().character is Some {
                let c = entries.last().character->0;
                if k == c as u32 {
                    assert(m[k] == entries.last().keycode);
                } else {
                    assert(m[k] == mp[k] && mp.contains_key(k));
                }
            } else {
                assert(m == mp);
            }
        }
    }
}

/// In a well-formed sequence, every code the keysym index caches lies within
/// the sequence.
proof fn lemma_sym_map_bounds(entries: Seq<KeymapEntry>)
    requires
        entries_wf(entries),
    ensures
        forall|k: u32|
            sym_map_of(entries).contains_key(k) ==> 1 <= #[trigger] sym_map_of(entries)[k]
                <= entries.len(),
    decreases entries.len(),
{
    if entries.len() > 0 {
        let pre = entries.drop_last();
        assert(entries_wf(pre)) by {
            assert(forall|i: int| 0 <= i < pre.len() ==> #[trigger] pre[i] == entries[i]);
        }
        lemma_sym_map_bounds(pre);
        assert(entries.last().keycode == entries.len());
        let m = sym_map_of(entries);
        let mp = sym_map_of(pre);
        assert forall|k: u32| m.contains_key(k) implies 1 <= #[trigger] m[k] <= entries.len() by {
            if k == entries.last().keysym {
                assert(m[k] == entries.last().keycode);
            } else {
                assert(m[k] == mp[k] && mp.contains_key(k));
            }
        }
    }
}

/// One character step keeps the sequence well formed, never reassigns what is
/// already allocated, grows by at most one entry, and hands out a code within
/// the grown sequence.
pub proof fn lemma_char_step_props(entries: Seq<KeymapEntry>, c: char)
    requires
        entries_wf(entries),
        entries.len() < KEYMAP_MAX_ENTRIES,
    ensures
        ({
            let (e2, code) = char_step(entries, c);
            &&& entries_wf(e2)
            &&& entries.len() <= e2.len() <= entries.len() + 1
            &&& e2.take(entries.len() as int) == entries
            &&& 1 <= code <= e2.len()
        }),
{
    lemma_char_map_bounds(entries);
    let (e2, code) = char_step(entries, c);
    if char_map_of(entries).contains_key(c as u32) {
        assert(e2 == entries && code == char_map_of(entries)[c as u32]);
        assert(e2.take(entries.len() as int) =~= entries);
    } else {
        let e = KeymapEntry {
            keycode: (entries.len() + 1) as u32,
            keysym: spec_char_keysym(c),
            character: Some(c),
        };
        assert(e2 == entries.push(e));
        assert(entries_wf(e2)) by {
            assert forall|i: int| 0 <= i < e2.len() implies (#[trigger] e2[i]).keycode == i + 1 by {
                if i < entries.len() {
                    assert(e2[i] == entries[i]);
                } else {
                    assert(e2[i] == e);
                }
            }
        }
        assert(e2.take(entries.len() as int) =~= entries);
    }
}

/// One keysym step keeps the sequence well formed, never reassigns what is
/// already allocated, grows by at most one entry, and hands out a code within
/// the grown sequence.
pub proof fn lemma_sym_step_props(entries: Seq<KeymapEntry>, k: u32)
    requires
        entries_wf(entries),
        entries.len() < KEYMAP_MAX_ENTRIES,
    ensures
        ({
            let (e2, code) = sym_step(entries, k);
            &&& entries_wf(e2)
            &&& entries.len() <= e2.len() <= entries.len() + 1
            &&& e2.take(entries.len() as int) == entries
            &&& 1 <= code <= e2.len()
        }),
{
    lemma_sym_map_bounds(entries);
    let (e2, code) = sym_step(entries, k);
    if sym_map_of(entries).contains_key(k) {
        assert(e2 == entries && code == sym_map_of(entries)[k]);
        assert(e2.take(entries.len() as int) =~= entries);
    } else {
        let e = KeymapEntry { keycode: (entries.len() + 1) as u32, keysym: k, character: None };
        assert(e2 == entries.push(e));
        assert(entries_wf(e2)) by {
            assert forall|i: int| 0 <= i < e2.len() implies (#[trigger] e2[i]).keycode == i + 1 by {
                if i < entries.len() {
                    assert(e2[i] == entries[i]);
                } else {
                    assert(e2[i] == e);
                }
            }
        }
        assert(e2.take(entries.len() as int) =~= entries);
    }
}

/// A whole text keeps the sequence well formed and append-only, gives one
/// code per character in order, and every code lies within the grown
/// sequence.
pub proof fn lemma_text_step_props(entries: Seq<KeymapEntry>, text: Seq<char>)
    requires
        entries_wf(entries),
        entries.len() + text.len() <= KEYMAP_MAX_ENTRIES,
    ensures
        ({
            let (e2, codes) = text_step(entries, text);
            &&& entries_wf(e2)
            &&& entries.len() <= e2.len()
            &&& e2.take(entries.len() as int) == entries
            &&& codes.len() == text.len()
            &&& forall|i: int| 0 <= i < codes.len() ==> 1 <= #[trigger] codes[i] <= e2.len()
        }),
    decreases text.len(),
{
    let (e2, codes) = text_step(entries, text);
    if text.len() == 0 {
        assert(e2.take(entries.len() as int) =~= entries);
    } else {
        lemma_char_step_props(entries, text[0]);
        let (e1, k) = char_step(entries, text[0]);
        lemma_text_step_props(e1, text.skip(1));
        let (ef, cf) = text_step(e1, text.skip(1));
        assert(e2.take(entries.len() as int) =~= entries) by {
            assert(e2.take(e1.len() as int) == e1);
            assert(forall|j: int|
                0 <= j < entries.len() ==> e2.take(entries.len() as int)[j] == entries[j]) by {
                assert(forall|j: int| 0 <= j < e1.len() ==> e2.take(e1.len() as int)[j] == e1[j]);
                assert(forall|j: int|
                    0 <= j < entries.len() ==> e1.take(entries.len() as int)[j] == entries[j]);
            }
        }
        assert(forall|i: int| 0 <= i < codes.len() ==> 1 <= #[trigger] codes[i] <= e2.len()) by {
            assert(codes[0] == k && 1 <= k <= e1.len() <= e2.len());
            assert(forall|i: int| 1 <= i < codes.len() ==> codes[i] == cf[i - 1]);
        }
    }
}

/// Asking the keymap for the same character twice gives the same code, and
/// the second ask changes nothing: codes, once allocated, are stable.
pub proof fn lemma_char_code_stable(entries: Seq<KeymapEntry>, c: char)
    ensures
        ({
            let (e1, k1) = char_step(entries, c);
            let (e2, k2) = char_step(e1, c);
            e2 == e1 && k2 == k1
        }),
{
    let (e1, k1) = char_step(entries, c);
    if !char_map_of(entries).contains_key(c as u32) {
        assert(e1.drop_last() =~= entries);
        assert(char_map_of(e1) == char_map_of(entries).insert(c as u32, k1));
    }
}

/// An empty text asks for nothing: the keymap stays as it is and no code
/// comes back.
pub proof fn lemma_text_step_empty(entries: Seq<KeymapEntry>)
    ensures
        text_step(entries, Seq::<char>::empty()) == (entries, Seq::<u32>::empty()),
{
}

/// A character repeated within one text gets one code, handed out twice.
pub proof fn lemma_text_repeat_same_code(entries: Seq<KeymapEntry>, c: char)
    ensures
        ({
            let (e2, codes) = text_step(entries, seq![c, c]);
            codes.len() == 2 && codes[0] == codes[1]
        }),
{
    lemma_char_code_stable(entries, c);
    let t = seq![c, c];
    let (e1, k1) = char_step(entries, c);
    assert(t.skip(1) =~= seq![c]);
    let (e2, k2) = char_step(e1, c);
    assert(seq![c].skip(1) =~= Seq::<char>::empty());
    let (ef, cf) = text_step(e2, Seq::<char>::empty());
    assert(text_step(e1, seq![c]).1 =~= seq![k2]);
    assert(text_step(entries, t).1 =~= seq![k1] + seq![k2]);
}

/// Key names that differ only in ASCII case resolve to the same keysym and
/// so give the same code on the same keymap.
pub proof fn lemma_key_name_code_case_insensitive(
    entries: Seq<KeymapEntry>,
    n1: Seq<char>,
    n2: Seq<char>,
)
    requires
        crate::ascii_lower(n1) == crate::ascii_lower(n2),
    ensures
        spec_resolve_key_name(n1) == spec_resolve_key_name(n2),
        sym_step(entries, spec_resolve_key_name(n1)) == sym_step(
            entries,
            spec_resolve_key_name(n2),
        ),
{
    crate::keysym::lemma_key_name_case_insensitive(n1, n2);
}

/// The dynamic keymap builder: an append-only sequence of entries and two
/// lookup indices that always agree with it.
pub struct KeymapBuilder {
    entries: Vec<KeymapEntry>,
    char_index: HashMap<u32, u32>,
    sym_index: HashMap<u32, u32>,
}

impl View for KeymapBuilder {
    type V = Seq<KeymapEntry>;

    closed spec fn view(&self) -> Seq<KeymapEntry> {
        self.entries@
    }
}

impl Default for KeymapBuilder {
    /// An empty keymap.
    fn default() -> (r: KeymapBuilder)
        ensures
            r.wf(),
            r@ == Seq::<KeymapEntry>::empty(),
    {
        KeymapBuilder::new()
    }
}

impl KeymapBuilder {
    /// The builder's invariant: codes equal one more than the position in the
    /// allocation order, the keymap is within capacity, and both indices
    /// agree with the entry sequence.
    pub closed spec fn wf(&self) -> bool {
        &&& forall|i: int| 0 <= i < self@.len() ==> (#[trigger] self@[i]).keycode == i + 1
        &&& self@.len() <= KEYMAP_MAX_ENTRIES
        &&& self.char_index@ == char_map_of(self@)
        &&& self.sym_index@ == sym_map_of(self@)
    }

    /// An empty keymap.
    pub fn new() -> (r: KeymapBuilder)
        ensures
            r.wf(),
            r@ == Seq::<KeymapEntry>::empty(),
    {
        let r = KeymapBuilder {
            entries: Vec::new(),
            char_index: HashMap::new(),
            sym_index: HashMap::new(),
        };
        proof {
            assert(r@ =~= Seq::<KeymapEntry>::empty());
        }
        r
    }

    /// A well-formed builder's entries are well formed and within capacity.
    pub proof fn lemma_wf_entries(&self)
        requires
            self.wf(),
        ensures
            entries_wf(self@),
            self@.len() <= KEYMAP_MAX_ENTRIES,
    {
    }

    /// How many entries the keymap holds.
    pub fn len(&self) -> (n: usize)
        ensures
            n == self@.len(),
    {
        self.entries.len()
    }

    /// Append a new entry with the next code and record it in the indices.
    fn add_entry(&mut self, keysym: u32, character: Option<char>) -> (r: u32)
        requires
            old(self).wf(),
            old(self)@.len() < KEYMAP_MAX_ENTRIES,
        ensures
            final(self).wf(),
            final(self)@ == old(self)@.push(
                KeymapEntry {
                    keycode: (old(self)@.len() + 1) as u32,
                    keysym,
                    character,
                },
            ),
            r == old(self)@.len() + 1,
    {
        let keycode = (self.entries.len() as u32) + 1;
        let entry = KeymapEntry { keycode, keysym, character };
        self.entries.push(entry);
        match character {
            Some(c) => {
                self.char_index.insert(c as u32, keycode);
            },
            None => {},
        }
        self.sym_index.insert(keysym, keycode);
        proof {
            assert(self.entries@.drop_last() =~= old(self).entries@);
            assert(self.entries@.last() == entry);
        }
        keycode
    }

    /// The stable code for a character: the cached code where one exists, a
    /// freshly allocated entry otherwise, exactly as `char_step` describes.
    pub fn get_keycode_for_char(&mut self, ch: char) -> (r: u32)
        requires
            old(self).wf(),
            old(self)@.len() < KEYMAP_MAX_ENTRIES,
        ensures
            final(self).wf(),
            (final(self)@, r) == char_step(old(self)@, ch),
    {
        let key = ch as u32;
        let cached = match self.char_index.get(&key) {
            Some(code) => Some(*code),
            None => None,
        };
        match cached {
            Some(code) => code,
            None => {
                let keysym = if ch == '\n' {
                    KEYSYM_RETURN
                } else if ch == '\t' {
                    KEYSYM_TAB
                } else if ch == '\x1b' {
                    KEYSYM_ESCAPE
                } else {
                    char_to_keysym(ch)
                };
                self.add_entry(keysym, Some(ch))
            },
        }
    }

    /// The stable code for a keysym, exactly as `sym_step` describes; used
    /// for named keys with no printable character.
    pub fn get_keycode_for_keysym(&mut self, keysym: u32) -> (r: u32)
        requires
            old(self).wf(),
            old(self)@.len() < KEYMAP_MAX_ENTRIES,
        ensures
            final(self).wf(),
            (final(self)@, r) == sym_step(old(self)@, keysym),
    {
        let cached = match self.sym_index.get(&keysym) {
            Some(code) => Some(*code),
            None => None,
        };
        match cached {
            Some(code) => code,
            None => self.add_entry(keysym, None),
        }
    }

    /// The stable code for a textual key name: the name is resolved in the
    /// standard keysym table ignoring ASCII case, and fails with
    /// `UnknownKeyName` exactly when it resolves to no symbol; on success the
    /// keysym's code is allocated or found as `sym_step` describes.
    pub fn get_keycode_for_key_name(&mut self, name: &str) -> (r: Result<u32, WrtypeError>)
        requires
            old(self).wf(),
            old(self)@.len() < KEYMAP_MAX_ENTRIES,
        ensures
            final(self).wf(),
            ({
                let k = spec_resolve_key_name(name@);
                if k == KEYSYM_NOSYMBOL {
                    r == Err::<u32, WrtypeError>(WrtypeError::UnknownKeyName) && final(self)@
                        == old(self)@
                } else {
                    r matches Ok(code) && (final(self)@, code) == sym_step(old(self)@, k)
                }
            }),
    {
        let keysym = resolve_key_name(name);
        if keysym == KEYSYM_NOSYMBOL {
            Err(WrtypeError::UnknownKeyName)
        } else {
            Ok(self.get_keycode_for_keysym(keysym))
        }
    }

    /// The codes for a whole text, in the order of its characters, exactly as
    /// `text_step` describes; an empty text gives no codes.
    pub fn get_keycodes_for_text(&mut self, text: &str) -> (r: Vec<u32>)
        requires
            old(self).wf(),
            old(self)@.len() + text@.len() <= KEYMAP_MAX_ENTRIES,
        ensures
            final(self).wf(),
            (final(self)@, r@) == text_step(old(self)@, text@),
    {
        let n = text.unicode_len();
        let mut codes: Vec<u32> = Vec::new();
        let mut i: usize = 0;
        proof {
            assert(text@.skip(0) =~= text@);
    }
        while i < n
            invariant
                0 <= i <= n,
                n == text@.len(),
                self.wf(),
                self@.len() + (n - i) <= KEYMAP_MAX_ENTRIES,
                text_step(old(self)@, text@) == {
                    let (ef, cf) = text_step(self@, text@.skip(i as int));
                    (ef, codes@ + cf)
                },
            decreases n - i,
        {
            let ch = text.get_char(i);
            let ghost pre = self@;
            let ghost pre_codes = codes@;
            let code = self.get_keycode_for_char(ch);
            codes.push(code);
            proof {
                assert(text@.skip(i as int).skip(1) =~= text@.skip(i + 1));
                assert(text@.skip(i as int)[0] == ch);
                let (ef, cf) = text_step(self@, text@.skip(i + 1));
                assert(pre_codes + (seq![code] + cf) =~= codes@ + cf);
            }
            i = i + 1;
        }
        proof {
            assert(text@.skip(n as int) =~= Seq::<char>::empty());
            let (ef, cf) = text_step(self@, text@.skip(n as int));
            assert(codes@ + cf =~= codes@);
        }
        codes
    }

    /// Render the whole keymap, exactly as `spec_render_keymap` describes.
    /// Rendering reads the state and changes nothing, so rendering twice
    /// without a mutation in between gives the same text.
    pub fn generate_keymap(&self) -> (r: String)
        requires
            self.wf(),
        ensures
            r@ == spec_render_keymap(self@),
    {
        let n = self.entries.len();
        let mut out = String::new();
        out.append("xkb_keymap {\n");
        out.append("xkb_keycodes \"(unnamed)\" {\n");
        out.append("minimum = 8;\n");
        out.append("maximum = ");
        let mx = string_from_chars(&decimal_chars((n as u64) + 9));
        out.append(mx.as_str());
        out.append(";\n");
        let ghost part_a = out@;
        proof {
            assert(part_a =~= "xkb_keymap {\n"@ + "xkb_keycodes \"(unnamed)\" {\n"@
                + "minimum = 8;\n"@ + "maximum = "@ + spec_decimal(self@.len() as int + 9) + ";\n"@);
            assert(part_a + spec_keycode_lines(0) =~= part_a);
        }
        let mut i: usize = 0;
        while i < n
            invariant
                0 <= i <= n,
                n == self@.len(),
                self.wf(),
                out@ == part_a + spec_keycode_lines(i as int),
            decreases n - i,
        {
            out.append("<K");
            let d1 = string_from_chars(&decimal_chars((i as u64) + 1));
            out.append(d1.as_str());
            out.append("> = ");
            let d2 = string_from_chars(&decimal_chars((i as u64) + 9));
            out.append(d2.as_str());
            out.append(";\n");
            proof {
                assert(out@ =~= part_a + spec_keycode_lines(i + 1));
            }
            i = i + 1;
        }
        out.append("};\n");
        out.append("xkb_types \"(unnamed)\" { include \"complete\" };\n");
        out.append("xkb_compatibility \"(unnamed)\" { include \"complete\" };\n");
        out.append("xkb_symbols \"(unnamed)\" {\n");
        let ghost part_b = out@;
        proof {
            assert(part_b + spec_symbol_lines(self@.take(0)) =~= part_b);
        }
        let mut i: usize = 0;
        while i < n
            invariant
                0 <= i <= n,
                n == self@.len(),
                self.wf(),
                part_b == part_a + spec_keycode_lines(n as int) + "};\n"@
                    + "xkb_types \"(unnamed)\" { include \"complete\" };\n"@
                    + "xkb_compatibility \"(unnamed)\" { include \"complete\" };\n"@
                    + "xkb_symbols \"(unnamed)\" {\n"@,
                out@ == part_b + spec_symbol_lines(self@.take(i as int)),
            decreases n - i,
        {
            out.append("key <K");
            let d = string_from_chars(&decimal_chars((i as u64) + 1));
            out.append(d.as_str());
            out.append("> {[");
            let nm = string_from_chars(&keysym_display_name(self.entries[i].keysym));
            out.append(nm.as_str());
            out.append("]};\n");
            proof {
                assert(self@.take(i + 1).drop_last() =~= self@.take(i as int));
                assert(self@.take(i + 1).last() == self@[i as int]);
                assert(out@ =~= part_b + spec_symbol_lines(self@.take(i + 1)));
            }
            i = i + 1;
        }
        out.append("};\n");
        out.append("};\n");
        proof {
            assert(self@.take(n as int) =~= self@);
            assert(out@ =~= spec_render_keymap(self@));
        }
        out
    }
}

/// One keycode declaration line: symbolic name `<Kn>` bound to code `n + 8`.
pub open spec fn spec_keycode_line(i: int) -> Seq<char> {
    "<K"@ + spec_decimal(i + 1) + "> = "@ + spec_decimal(i + 9) + ";\n"@
}

/// The keycode declaration lines of the first `n` entries, in order.
pub open spec fn spec_keycode_lines(n: int) -> Seq<char>
    decreases n,
{
    if n <= 0 {
        Seq::empty()
    } else {
        spec_keycode_lines(n - 1) + spec_keycode_line(n - 1)
    }
}

/// One symbol binding line: the key at position `i`, bound to one keysym on
/// its base level.
pub open spec fn spec_symbol_line(i: int, keysym: u32) -> Seq<char> {
    "key <K"@ + spec_decimal(i + 1) + "> {["@ + spec_keysym_display_name(keysym) + "]};\n"@
}

/// The symbol binding lines of all entries, in order.
pub open spec fn spec_symbol_lines(entries: Seq<KeymapEntry>) -> Seq<char>
    decreases entries.len(),
{
    if entries.len() == 0 {
        Seq::empty()
    } else {
        spec_symbol_lines(entries.drop_last()) + spec_symbol_line(
            entries.len() - 1,
            entries.last().keysym,
        )
    }
}

/// The complete textual keymap for an entry sequence: a keycode section with
/// the fixed minimum of 8 and a maximum of the entry count plus 9, the
/// standard type and compatibility inclusions, and one symbol binding line
/// per entry.
pub open spec fn spec_render_keymap(entries: Seq<KeymapEntry>) -> Seq<char> {
    "xkb_keymap {\n"@ + "xkb_keycodes \"(unnamed)\" {\n"@ + "minimum = 8;\n"@ + "maximum = "@
        + spec_decimal(entries.len() as int + 9) + ";\n"@ + spec_keycode_lines(entries.len() as int)
        + "};\n"@ + "xkb_types \"(unnamed)\" { include \"complete\" };\n"@
        + "xkb_compatibility \"(unnamed)\" { include \"complete\" };\n"@
        + "xkb_symbols \"(unnamed)\" {\n"@ + spec_symbol_lines(entries) + "};\n"@ + "};\n"@
}

} // verus!
