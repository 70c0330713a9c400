//! Which keys mean what: the keyboard mapping, the key bindings and the grabs.

use std::collections::HashSet;
use vstd::prelude::*;

verus! {

/// The key symbol of Tab.
pub const XK_TAB: u32 = 0xff09;

/// The key symbol of Escape.
pub const XK_ESCAPE: u32 = 0xff1b;

/// The key symbol of the left Alt key.
pub const XK_ALT_L: u32 = 0xffe9;

/// The key symbol of the right Alt key.
pub const XK_ALT_R: u32 = 0xffea;

/// The modifier bit of Shift.
pub const SHIFT: u16 = 0x01;

/// The modifier bit of Caps Lock.
pub const LOCK: u16 = 0x02;

/// The modifier bit of Mod1, which is Alt.
pub const MOD1: u16 = 0x08;

/// The modifier bit of Mod2, which is Num Lock.
pub const MOD2: u16 = 0x10;

/// The modifier bit of Mod5.
pub const MOD5: u16 = 0x80;

/// The key symbols of all keys: for each key code from the smallest on, the same
/// number of symbols.
pub struct KeyboardMapping {
    pub min_keycode: u8,
    pub keysyms_per_keycode: u8,
    pub keysyms: Vec<u32>,
}

/// The number of key codes between two, as the X server counts it: in one byte.
pub fn keycode_count(min_keycode: u8, max_keycode: u8) -> (r: u8)
    ensures
        r == (max_keycode + 1 - min_keycode) % 256,
{
    max_keycode.wrapping_add(1).wrapping_sub(min_keycode)
}

/// Whether the key at position `index` has the symbol.
pub open spec fn key_has(mapping: KeyboardMapping, index: int, keysym: u32) -> bool {
    exists|k: int|
        index * mapping.keysyms_per_keycode <= k < (index + 1) * mapping.keysyms_per_keycode && k
            < mapping.keysyms@.len() && #[trigger] mapping.keysyms@[k] == keysym
}

/// The code of the key at position `index`: key codes are bytes, and go round.
pub open spec fn keycode_at(mapping: KeyboardMapping, index: int) -> u8 {
    ((mapping.min_keycode + index) % 256) as u8
}

/// The number of keys: the last one may have fewer symbols than the others.
pub open spec fn key_count(mapping: KeyboardMapping) -> int {
    (mapping.keysyms@.len() + mapping.keysyms_per_keycode - 1) / (
    mapping.keysyms_per_keycode as int)
}

/// The codes of the keys with the symbol, among the first `count` keys.
pub open spec fn keycodes_among(mapping: KeyboardMapping, keysym: u32, count: int) -> Seq<u8>
    decreases count,
{
    if count <= 0 {
        Seq::empty()
    } else {
        let before = keycodes_among(mapping, keysym, count - 1);
        if key_has(mapping, count - 1, keysym) {
            before.push(keycode_at(mapping, count - 1))
        } else {
            before
        }
    }
}

/// The codes of the keys with the symbol.
pub open spec fn keycodes_of(mapping: KeyboardMapping, keysym: u32) -> Seq<u8> {
    keycodes_among(mapping, keysym, key_count(mapping))
}

/// The codes of the keys with the symbol.
pub fn keycodes_for_keysym(mapping: &KeyboardMapping, keysym: u32) -> (r: Vec<u8>)
    requires
        mapping.keysyms_per_keycode > 0,
    ensures
        r@ == keycodes_of(*mapping, keysym),
{
    let per: usize = mapping.keysyms_per_keycode as usize;
    let len: usize = mapping.keysyms.len();
    let mut r: Vec<u8> = Vec::new();
    let mut code: u8 = mapping.min_keycode;
    let mut at: usize = 0;
    let ghost mut index: int = 0;
    proof {
        assert(0 * per == 0) by (nonlinear_arith);
        if len == 0 {
            lemma_no_keys(*mapping);
        } else {
            lemma_key_count(*mapping, 0, 0);
        }
    }
    while at < len
        invariant
            per == mapping.keysyms_per_keycode,
            per > 0,
            len == mapping.keysyms@.len(),
            at <= len,
            index >= 0,
            at < len ==> at == index * per,
            at == len ==> index == key_count(*mapping),
            index <= key_count(*mapping),
            code == keycode_at(*mapping, index),
            r@ == keycodes_among(*mapping, keysym, index),
        decreases len - at,
    {
        let end: usize = if per >= len - at {
            len
        } else {
            at + per
        };
        let mut found = false;
        let mut k: usize = at;
        proof {
            assert((index + 1) * per == index * per + per) by (nonlinear_arith);
        }
        while k < end
            invariant
                at <= k <= end <= len,
                per == mapping.keysyms_per_keycode,
                len == mapping.keysyms@.len(),
                at == index * per,
                end <= (index + 1) * per,
                found ==> key_has(*mapping, index, keysym),
                !found ==> forall|m: int| at <= m < k ==> #[trigger] mapping.keysyms@[m] != keysym,
            decreases end - k,
        {
            if mapping.keysyms[k] == keysym {
                found = true;
                proof {
                    assert(mapping.keysyms@[k as int] == keysym);
                }
            }
            k = k + 1;
        }
        proof {
            lemma_key_count(*mapping, index, at as int);
            if end == len {
                assert(key_count(*mapping) == index + 1);
            }
            assert(found == key_has(*mapping, index, keysym));
        }
        if found {
            r.push(code);
        }
        code = code.wrapping_add(1);
        at = end;
        proof {
            index = index + 1;
        }
    }
    r
}

/// Without symbols there are no keys.
proof fn lemma_no_keys(mapping: KeyboardMapping)
    requires
        mapping.keysyms_per_keycode > 0,
        mapping.keysyms@.len() == 0,
    ensures
        key_count(mapping) == 0,
{
    let per = mapping.keysyms_per_keycode as int;
    assert((per - 1) / per == 0) by (nonlinear_arith)
        requires
            per > 0,
    ;
}

/// How many keys there are, seen from one that starts inside the symbols.
proof fn lemma_key_count(mapping: KeyboardMapping, index: int, at: int)
    requires
        mapping.keysyms_per_keycode > 0,
        0 <= index,
        at == index * mapping.keysyms_per_keycode,
        at < mapping.keysyms@.len(),
    ensures
        index + 1 <= key_count(mapping),
        mapping.keysyms@.len() - at <= mapping.keysyms_per_keycode ==> key_count(mapping) == index
            + 1,
{
    let per = mapping.keysyms_per_keycode as int;
    let len = mapping.keysyms@.len() as int;
    assert((len + per - 1) / per >= index + 1) by (nonlinear_arith)
        requires
            per > 0,
            len >= index * per + 1,
    ;
    if len - at <= per {
        assert((len + per - 1) / per <= index + 1) by (nonlinear_arith)
            requires
                per > 0,
                len <= index * per + per,
        ;
    }
}

/// The keys that the switcher listens to.
pub struct KeyBindings {
    pub tab: Vec<u8>,
    pub alt: HashSet<u8>,
    pub escape: Option<u8>,
}

/// The first code, if there is one.
pub open spec fn first_code(codes: Seq<u8>) -> Option<u8> {
    if codes.len() > 0 {
        Some(codes[0])
    } else {
        None
    }
}

/// Adds codes to a set.
fn add_codes(set: &mut HashSet<u8>, codes: &Vec<u8>)
    ensures
        final(set)@ == old(set)@.union(codes@.to_set()),
{
    broadcast use vstd::std_specs::hash::group_hash_axioms;

    let ghost before = set@;
    let mut i: usize = 0;
    proof {
        assert(before.union(codes@.take(0).to_set()) =~= before);
    }
    while i < codes.len()
        invariant
            i <= codes@.len(),
            set@ == before.union(codes@.take(i as int).to_set()),
        decreases codes@.len() - i,
    {
        set.insert(codes[i]);
        proof {
            let done = codes@.take(i as int);
            assert(codes@.take(i + 1) =~= done.push(codes@[i as int]));
            done.lemma_push_to_set_commute(codes@[i as int]);
            assert(set@ =~= before.union(codes@.take(i + 1).to_set()));
        }
        i = i + 1;
    }
    proof {
        assert(codes@.take(codes@.len() as int) =~= codes@);
    }
}

impl KeyBindings {
    /// Whether these are the bindings of a keyboard mapping: Tab, both Alt keys
    /// and the first Escape key.
    pub open spec fn bound(self, mapping: KeyboardMapping) -> bool {
        &&& self.tab@ == keycodes_of(mapping, XK_TAB)
        &&& self.alt@ == keycodes_of(mapping, XK_ALT_L).to_set().union(
            keycodes_of(mapping, XK_ALT_R).to_set(),
        )
        &&& self.escape == first_code(keycodes_of(mapping, XK_ESCAPE))
    }

    /// The bindings of a keyboard mapping.
    pub fn load(mapping: &KeyboardMapping) -> (r: Self)
        requires
            mapping.keysyms_per_keycode > 0,
        ensures
            r.bound(*mapping),
    {
        let mut bindings = KeyBindings { tab: Vec::new(), alt: HashSet::new(), escape: None };
        bindings.refresh(mapping);
        bindings
    }

    /// Takes the bindings of another keyboard mapping.
    pub fn refresh(&mut self, mapping: &KeyboardMapping)
        requires
            mapping.keysyms_per_keycode > 0,
        ensures
            final(self).bound(*mapping),
    {
        broadcast use vstd::std_specs::hash::group_hash_axioms;

        self.tab = keycodes_for_keysym(mapping, XK_TAB);
        let left = keycodes_for_keysym(mapping, XK_ALT_L);
        let right = keycodes_for_keysym(mapping, XK_ALT_R);
        let mut alt: HashSet<u8> = HashSet::new();
        add_codes(&mut alt, &left);
        add_codes(&mut alt, &right);
        proof {
            assert(alt@ =~= left@.to_set().union(right@.to_set()));
        }
        self.alt = alt;
        let escape = keycodes_for_keysym(mapping, XK_ESCAPE);
        self.escape = if escape.len() > 0 {
            Some(escape[0])
        } else {
            None
        };
    }

    /// Whether this is a Tab key.
    pub fn is_tab(&self, keycode: u8) -> (r: bool)
        ensures
            r == self.tab@.contains(keycode),
    {
        let mut i: usize = 0;
        while i < self.tab.len()
            invariant
                i <= self.tab@.len(),
                forall|k: int| 0 <= k < i ==> self.tab@[k] != keycode,
            decreases self.tab@.len() - i,
        {
            if self.tab[i] == keycode {
                return true;
            }
            i = i + 1;
        }
        false
    }

    /// Whether this is an Alt key.
    pub fn is_alt(&self, keycode: u8) -> (r: bool)
        ensures
            r == self.alt@.contains(keycode),
    {
        broadcast use vstd::std_specs::hash::group_hash_axioms;

        self.alt.contains(&keycode)
    }

    /// Whether this is the Escape key.
    pub fn is_escape(&self, keycode: u8) -> (r: bool)
        ensures
            r == (self.escape == Some(keycode)),
    {
        match self.escape {
            Some(code) => code == keycode,
            None => false,
        }
    }
}

/// The combinations of the modifiers that do not matter: Caps Lock, Num Lock and
/// Mod5.
pub open spec fn modifier_masks() -> Seq<u16> {
    seq![
        0u16,
        LOCK,
        MOD2,
        MOD5,
        LOCK | MOD2,
        LOCK | MOD5,
        MOD2 | MOD5,
        LOCK | MOD2 | MOD5,
    ]
}

/// The combinations of the modifiers that do not matter.
pub fn build_modifier_masks() -> (r: Vec<u16>)
    ensures
        r@ == modifier_masks(),
{
    let masks: Vec<u16> = vec![
        0,
        LOCK,
        MOD2,
        MOD5,
        LOCK | MOD2,
        LOCK | MOD5,
        MOD2 | MOD5,
        LOCK | MOD2 | MOD5,
    ];
    proof {
        assert(masks@ =~= modifier_masks());
    }
    masks
}

/// Every combination of the modifiers that do not matter is among the masks,
/// and nothing else is.
pub proof fn masks_are_all_combinations(mask: u16)
    ensures
        modifier_masks().contains(mask) <==> mask & !(LOCK | MOD2 | MOD5) == 0,
{
    let masks = modifier_masks();
    assert(mask & !(0x02u16 | 0x10u16 | 0x80u16) == 0 <==> (mask == 0 || mask == 0x02 || mask
        == 0x10 || mask == 0x80 || mask == 0x12 || mask == 0x82 || mask == 0x90 || mask == 0x92))
        by (bit_vector);
    assert(0x02u16 | 0x10u16 == 0x12 && 0x02u16 | 0x80u16 == 0x82 && 0x10u16 | 0x80u16 == 0x90
        && 0x02u16 | 0x10u16 | 0x80u16 == 0x92) by (bit_vector);
    assert(masks[0] == 0 && masks[1] == 0x02 && masks[2] == 0x10 && masks[3] == 0x80 && masks[4]
        == 0x12 && masks[5] == 0x82 && masks[6] == 0x90 && masks[7] == 0x92);
    if masks.contains(mask) {
        let i = choose|i: int| 0 <= i < masks.len() && masks[i] == mask;
    }
}

/// A key with modifiers that is to be grabbed.
#[derive(Clone, Copy, Debug, PartialEq, Eq, Structural)]
pub struct KeyGrab {
    pub keycode: u8,
    pub modifiers: u16,
}

/// The grabs of one key: Alt, without and with Shift, for each of the masks.
pub open spec fn key_grabs(keycode: u8, masks: Seq<u16>) -> Seq<KeyGrab>
    decreases masks.len(),
{
    if masks.len() == 0 {
        Seq::empty()
    } else {
        key_grabs(keycode, masks.drop_last()).push(
            KeyGrab { keycode, modifiers: masks.last() | MOD1 },
        ).push(KeyGrab { keycode, modifiers: masks.last() | MOD1 | SHIFT })
    }
}

/// The grabs of all keys.
pub open spec fn all_grabs(keycodes: Seq<u8>, masks: Seq<u16>) -> Seq<KeyGrab>
    decreases keycodes.len(),
{
    if keycodes.len() == 0 {
        Seq::empty()
    } else {
        all_grabs(keycodes.drop_last(), masks) + key_grabs(keycodes.last(), masks)
    }
}

impl KeyBindings {
    /// The grabs by which the switcher hears of Alt and Tab: each Tab key with
    /// Alt, without and with Shift, whatever modifiers that do not matter are
    /// set.
    pub fn tab_grabs(&self) -> (r: Vec<KeyGrab>)
        ensures
            r@ == all_grabs(self.tab@, modifier_masks()),
    {
        let masks = build_modifier_masks();
        let mut r: Vec<KeyGrab> = Vec::new();
        let ghost codes = self.tab@;
        let mut i: usize = 0;
        while i < self.tab.len()
            invariant
                i <= self.tab@.len(),
                codes == self.tab@,
                masks@ == modifier_masks(),
                r@ == all_grabs(codes.take(i as int), modifier_masks()),
            decreases self.tab@.len() - i,
        {
            let keycode = self.tab[i];
            let ghost before = r@;
            let mut k: usize = 0;
            proof {
                assert(codes.take(i + 1).drop_last() =~= codes.take(i as int));
                assert(before + key_grabs(keycode, masks@.take(0)) =~= before);
            }
            while k < masks.len()
                invariant
                    k <= masks@.len(),
                    r@ == before + key_grabs(keycode, masks@.take(k as int)),
                decreases masks@.len() - k,
            {
                let mask = masks[k];
                r.push(KeyGrab { keycode, modifiers: mask | MOD1 });
                r.push(KeyGrab { keycode, modifiers: mask | MOD1 | SHIFT });
                proof {
                    assert(masks@.take(k + 1).drop_last() =~= masks@.take(k as int));
                    assert(masks@.take(k + 1).last() == mask);
                    assert(r@ =~= before + key_grabs(keycode, masks@.take(k + 1)));
                }
                k = k + 1;
            }
            proof {
                assert(masks@.take(masks@.len() as int) =~= masks@);
            }
            i = i + 1;
        }
        proof {
            assert(codes.take(codes.len() as int) =~= codes);
        }
        r
    }
}

/// A code is among those for a symbol exactly if some key with that code has the
/// symbol: which keys are bound depends on the keyboard mapping alone.
pub proof fn a_code_is_found_by_its_symbol(
    mapping: KeyboardMapping,
    keysym: u32,
    count: int,
    code: u8,
)
    ensures
        keycodes_among(mapping, keysym, count).contains(code) <==> exists|i: int|
            0 <= i < count && #[trigger] key_has(mapping, i, keysym) && keycode_at(mapping, i)
                == code,
    decreases count,
{
    if count > 0 {
        a_code_is_found_by_its_symbol(mapping, keysym, count - 1, code);
        let before = keycodes_among(mapping, keysym, count - 1);
        let all = keycodes_among(mapping, keysym, count);
        let last = keycode_at(mapping, count - 1);
        if key_has(mapping, count - 1, keysym) {
            assert(all[all.len() - 1] == last);
            if all.contains(code) && code != last {
                let k = choose|k: int| 0 <= k < all.len() && all[k] == code;
                assert(before[k] == code);
            }
            if before.contains(code) {
                let k = choose|k: int| 0 <= k < before.len() && before[k] == code;
                assert(all[k] == code);
            }
        }
    }
}

/// A keycode is bound to a symbol exactly if one of the symbols of its key is that
/// symbol: the keys come in their order, each with the same number of symbols. Tab
/// is found by its own symbol, Alt by that of the left and that of the right key,
/// and Escape is the first key with its symbol.
pub proof fn keys_are_bound_by_their_symbols(
    mapping: KeyboardMapping,
    bindings: KeyBindings,
    code: u8,
)
    requires
        mapping.keysyms_per_keycode > 0,
        bindings.bound(mapping),
    ensures
        bindings.tab@.contains(code) <==> exists|k: int| #[trigger]
            has_symbol(mapping, k, code, 0xff09),
        bindings.alt@.contains(code) <==> (exists|k: int| #[trigger]
            has_symbol(mapping, k, code, 0xffe9)) || (exists|k: int| #[trigger]
            has_symbol(mapping, k, code, 0xffea)),
        bindings.escape == Some(code) ==> exists|k: int| #[trigger]
            has_symbol(mapping, k, code, 0xff1b),
        bindings.escape is None ==> !exists|k: int| #[trigger]
            has_symbol(mapping, k, code, 0xff1b),
{
    lemma_codes_by_symbol(mapping, code, 0xff09);
    lemma_codes_by_symbol(mapping, code, 0xffe9);
    lemma_codes_by_symbol(mapping, code, 0xffea);
    lemma_codes_by_symbol(mapping, code, 0xff1b);
    let left = keycodes_of(mapping, 0xffe9);
    let right = keycodes_of(mapping, 0xffea);
    assert(left.to_set().contains(code) <==> left.contains(code));
    assert(right.to_set().contains(code) <==> right.contains(code));
    let escapes = keycodes_of(mapping, 0xff1b);
    if bindings.escape == Some(code) {
        assert(escapes.contains(escapes[0]));
    }
    if bindings.escape is None && escapes.contains(code) {
        let i = choose|i: int| 0 <= i < escapes.len() && escapes[i] == code;
        assert(escapes.len() > 0);
    }
}

/// Whether the symbol at position `k` is the given one and belongs to a keycode.
pub open spec fn has_symbol(mapping: KeyboardMapping, k: int, code: u8, keysym: u32) -> bool {
    &&& 0 <= k < mapping.keysyms@.len()
    &&& mapping.keysyms@[k] == keysym
    &&& code == (mapping.min_keycode + k / (mapping.keysyms_per_keycode as int)) % 256
}

proof fn lemma_codes_by_symbol(mapping: KeyboardMapping, code: u8, keysym: u32)
    requires
        mapping.keysyms_per_keycode > 0,
    ensures
        keycodes_of(mapping, keysym).contains(code) <==> exists|k: int| #[trigger]
            has_symbol(mapping, k, code, keysym),
{
    let per = mapping.keysyms_per_keycode as int;
    let count = key_count(mapping);
    let n = mapping.keysyms@.len() as int;
    a_code_is_found_by_its_symbol(mapping, keysym, count, code);
    if keycodes_of(mapping, keysym).contains(code) {
        let i = choose|i: int|
            0 <= i < count && #[trigger] key_has(mapping, i, keysym) && keycode_at(mapping, i)
                == code;
        let k = choose|k: int|
            i * mapping.keysyms_per_keycode <= k < (i + 1) * mapping.keysyms_per_keycode && k
                < mapping.keysyms@.len() && #[trigger] mapping.keysyms@[k] == keysym;
        assert(i * per >= 0) by (nonlinear_arith)
            requires
                i >= 0,
                per > 0,
        ;
        assert(k / per == i) by (nonlinear_arith)
            requires
                i * per <= k < (i + 1) * per,
                per > 0,
        ;
        assert(has_symbol(mapping, k, code, keysym));
    }
    if exists|k: int| #[trigger] has_symbol(mapping, k, code, keysym) {
        let k = choose|k: int| #[trigger] has_symbol(mapping, k, code, keysym);
        let i = k / per;
        assert(i * per <= k < (i + 1) * per && 0 <= i) by (nonlinear_arith)
            requires
                i == k / per,
                0 <= k,
                per > 0,
        ;
        assert(i < (n + per - 1) / per) by (nonlinear_arith)
            requires
                i == k / per,
                0 <= k < n,
                per > 0,
        ;
        assert(mapping.keysyms@[k] == keysym);
        assert(key_has(mapping, i, keysym));
        assert(keycode_at(mapping, i) == code);
    }
}

/// The keys that are grabbed are the Tab keys with Alt, with or without Shift, and
/// with any of the three locks or without them; no other combination is.
pub proof fn tab_is_grabbed_with_alt(keycodes: Seq<u8>, grab: KeyGrab)
    ensures
        all_grabs(keycodes, modifier_masks()).contains(grab) <==> keycodes.contains(grab.keycode)
            && grab.modifiers & 0x08 == 0x08 && grab.modifiers & !0x9bu16 == 0,
{
    lemma_all_grabs(keycodes, modifier_masks(), grab);
    let m = grab.modifiers;
    if exists|k: int|
        0 <= k < modifier_masks().len() && (m == #[trigger] modifier_masks()[k] | MOD1 || m
            == modifier_masks()[k] | MOD1 | SHIFT) {
        let k = choose|k: int|
            0 <= k < modifier_masks().len() && (m == #[trigger] modifier_masks()[k] | MOD1 || m
                == modifier_masks()[k] | MOD1 | SHIFT);
        let mask = modifier_masks()[k];
        assert(modifier_masks().contains(mask));
        masks_are_all_combinations(mask);
        assert(m & 0x08 == 0x08 && m & !0x9bu16 == 0) by (bit_vector)
            requires
                mask & !(0x02u16 | 0x10u16 | 0x80u16) == 0,
                m == mask | 0x08u16 || m == mask | 0x08u16 | 0x01u16,
        ;
    }
    if m & 0x08 == 0x08 && m & !0x9bu16 == 0 {
        let mask: u16 = m & 0x92u16;
        assert(mask & !(0x02u16 | 0x10u16 | 0x80u16) == 0 && (m == mask | 0x08u16 || m == mask
            | 0x08u16 | 0x01u16)) by (bit_vector)
            requires
                mask == m & 0x92u16,
                m & 0x08 == 0x08,
                m & !0x9bu16 == 0,
        ;
        masks_are_all_combinations(mask);
        let k = choose|k: int| 0 <= k < modifier_masks().len() && modifier_masks()[k] == mask;
        assert(m == modifier_masks()[k] | MOD1 || m == modifier_masks()[k] | MOD1 | SHIFT);
    }
}

proof fn lemma_key_grabs(keycode: u8, masks: Seq<u16>, grab: KeyGrab)
    ensures
        key_grabs(keycode, masks).contains(grab) <==> grab.keycode == keycode && exists|k: int|
            0 <= k < masks.len() && (grab.modifiers == #[trigger] masks[k] | MOD1
                || grab.modifiers == masks[k] | MOD1 | SHIFT),
    decreases masks.len(),
{
    if masks.len() > 0 {
        let before = key_grabs(keycode, masks.drop_last());
        let one = KeyGrab { keycode, modifiers: masks.last() | MOD1 };
        let two = KeyGrab { keycode, modifiers: masks.last() | MOD1 | SHIFT };
        let all = key_grabs(keycode, masks);
        lemma_key_grabs(keycode, masks.drop_last(), grab);
        assert(all == before.push(one).push(two));
        assert(all[before.len() as int] == one);
        assert(all[before.len() as int + 1] == two);
        if all.contains(grab) {
            let i = choose|i: int| 0 <= i < all.len() && all[i] == grab;
            if i < before.len() {
                assert(before[i] == grab);
                let k = choose|k: int|
                    0 <= k < masks.drop_last().len() && (grab.modifiers
                        == #[trigger] masks.drop_last()[k] | MOD1 || grab.modifiers
                        == masks.drop_last()[k] | MOD1 | SHIFT);
                assert(masks[k] == masks.drop_last()[k]);
            } else {
                assert(masks[masks.len() - 1] == masks.last());
            }
        }
        if grab.keycode == keycode && exists|k: int|
            0 <= k < masks.len() && (grab.modifiers == #[trigger] masks[k] | MOD1
                || grab.modifiers == masks[k] | MOD1 | SHIFT) {
            let k = choose|k: int|
                0 <= k < masks.len() && (grab.modifiers == #[trigger] masks[k] | MOD1
                    || grab.modifiers == masks[k] | MOD1 | SHIFT);
            if k < masks.len() - 1 {
                assert(masks.drop_last()[k] == masks[k]);
                let i = choose|i: int| 0 <= i < before.len() && before[i] == grab;
                assert(all[i] == grab);
            }
        }
    }
}

proof fn lemma_all_grabs(keycodes: Seq<u8>, masks: Seq<u16>, grab: KeyGrab)
    ensures
        all_grabs(keycodes, masks).contains(grab) <==> keycodes.contains(grab.keycode) && exists|
            k: int,
        |
            0 <= k < masks.len() && (grab.modifiers == #[trigger] masks[k] | MOD1
                || grab.modifiers == masks[k] | MOD1 | SHIFT),
    decreases keycodes.len(),
{
    if keycodes.len() > 0 {
        let before = all_grabs(keycodes.drop_last(), masks);
        let last = key_grabs(keycodes.last(), masks);
        let all = before + last;
        lemma_all_grabs(keycodes.drop_last(), masks, grab);
        lemma_key_grabs(keycodes.last(), masks, grab);
        if all.contains(grab) {
            let i = choose|i: int| 0 <= i < all.len() && all[i] == grab;
            if i < before.len() {
                assert(before[i] == grab);
                let j = choose|j: int|
                    0 <= j < keycodes.drop_last().len() && keycodes.drop_last()[j] == grab.keycode;
                assert(keycodes[j] == grab.keycode);
            } else {
                assert(last[i - before.len()] == grab);
                assert(keycodes[keycodes.len() - 1] == grab.keycode);
            }
        }
        if before.contains(grab) {
            let i = choose|i: int| 0 <= i < before.len() && before[i] == grab;
            assert(all[i] == grab);
        }
        if last.contains(grab) {
            let i = choose|i: int| 0 <= i < last.len() && last[i] == grab;
            assert(all[before.len() + i] == grab);
        }
        if keycodes.contains(grab.keycode) {
            let j = choose|j: int| 0 <= j < keycodes.len() && keycodes[j] == grab.keycode;
            if j < keycodes.len() - 1 {
                assert(keycodes.drop_last()[j] == grab.keycode);
            }
        }
    }
}

/// The first keys come first: the key whose symbol is listed first is the first
/// code, and so it is the one that counts for Escape.
pub proof fn the_first_key_with_a_symbol_comes_first(
    mapping: KeyboardMapping,
    bindings: KeyBindings,
    keysym: u32,
    k: int,
)
    requires
        mapping.keysyms_per_keycode > 0,
        bindings.bound(mapping),
        0 <= k < mapping.keysyms@.len(),
        mapping.keysyms@[k] == keysym,
        forall|j: int| 0 <= j < k ==> mapping.keysyms@[j] != keysym,
    ensures
        ({
            let code = ((mapping.min_keycode + k / (mapping.keysyms_per_keycode as int))
                % 256) as u8;
            &&& keycodes_of(mapping, keysym).len() > 0
            &&& keycodes_of(mapping, keysym)[0] == code
            &&& keysym == 0xff1b ==> bindings.escape == Some(code)
        }),
{
    let per = mapping.keysyms_per_keycode as int;
    let n = mapping.keysyms@.len() as int;
    let i = k / per;
    assert(i * per <= k < (i + 1) * per && 0 <= i) by (nonlinear_arith)
        requires
            i == k / per,
            0 <= k,
            per > 0,
    ;
    assert(i < (n + per - 1) / per) by (nonlinear_arith)
        requires
            i == k / per,
            0 <= k < n,
            per > 0,
    ;
    assert(mapping.keysyms@[k] == keysym);
    assert(key_has(mapping, i, keysym));
    assert forall|m: int| 0 <= m < i implies !#[trigger] key_has(mapping, m, keysym) by {
        assert(0 <= m * per && (m + 1) * per <= i * per) by (nonlinear_arith)
            requires
                0 <= m < i,
                per > 0,
        ;
    }
    lemma_no_codes_before(mapping, keysym, i);
    lemma_first_code_stays(mapping, keysym, i + 1, key_count(mapping));
}

proof fn lemma_no_codes_before(mapping: KeyboardMapping, keysym: u32, count: int)
    requires
        0 <= count,
        forall|m: int| 0 <= m < count ==> !#[trigger] key_has(mapping, m, keysym),
    ensures
        keycodes_among(mapping, keysym, count).len() == 0,
    decreases count,
{
    if count > 0 {
        assert(!key_has(mapping, count - 1, keysym));
        lemma_no_codes_before(mapping, keysym, count - 1);
    }
}

proof fn lemma_first_code_stays(mapping: KeyboardMapping, keysym: u32, low: int, high: int)
    requires
        0 <= low <= high,
        keycodes_among(mapping, keysym, low).len() > 0,
    ensures
        keycodes_among(mapping, keysym, high).len() > 0,
        keycodes_among(mapping, keysym, high)[0] == keycodes_among(mapping, keysym, low)[0],
    decreases high - low,
{
    if low < high {
        lemma_first_code_stays(mapping, keysym, low, high - 1);
    }
}

} // verus!
