//! The settings: key combinations in words, capturing new ones, and what is said about it.

use vstd::prelude::*;

use crate::domain::config::UserSettings;
use crate::domain::hotkey::{HotkeyConfig, HotkeyModifier};
use crate::text;

verus! {

// ---------------------------------------------------------------------------
// Key combinations in words
// ---------------------------------------------------------------------------

/// The modifiers in the order in which they are named.
pub open spec fn named_modifiers() -> Seq<HotkeyModifier> {
    seq![
        HotkeyModifier::Control,
        HotkeyModifier::Alt,
        HotkeyModifier::Shift,
        HotkeyModifier::Win,
    ]
}

pub open spec fn modifier_name(m: HotkeyModifier) -> Seq<char> {
    match m {
        HotkeyModifier::Control => "Ctrl"@,
        HotkeyModifier::Alt => "Alt"@,
        HotkeyModifier::Shift => "Shift"@,
        HotkeyModifier::Win => "Win"@,
    }
}

fn name_of_modifier(m: HotkeyModifier) -> (r: &'static str)
    ensures
        r@ == modifier_name(m),
{
    match m {
        HotkeyModifier::Control => "Ctrl",
        HotkeyModifier::Alt => "Alt",
        HotkeyModifier::Shift => "Shift",
        HotkeyModifier::Win => "Win",
    }
}

/// The names of those of the first `n` modifiers that belong to a combination.
pub open spec fn held_names(modifiers: Seq<HotkeyModifier>, n: nat) -> Seq<Seq<char>>
    decreases n,
{
    if n == 0 {
        Seq::empty()
    } else {
        let before = held_names(modifiers, (n - 1) as nat);
        let m = named_modifiers()[n - 1];
        if modifiers.contains(m) {
            before.push(modifier_name(m))
        } else {
            before
        }
    }
}

/// A key by its name, or by its number where it has none.
pub open spec fn key_text(virtual_key: u32, name: Option<Seq<char>>) -> Seq<char> {
    match name {
        Some(n) => n,
        None => "VK 0x"@ + text::padded_hex(virtual_key as nat),
    }
}

pub open spec fn combination_text(
    modifiers: Seq<HotkeyModifier>,
    virtual_key: u32,
    name: Option<Seq<char>>,
) -> Seq<char> {
    text::join_with(held_names(modifiers, 4).push(key_text(virtual_key, name)), "+"@)
}

fn holds(modifiers: &Vec<HotkeyModifier>, m: HotkeyModifier) -> (r: bool)
    ensures
        r == modifiers@.contains(m),
{
    let mut i: usize = 0;
    while i < modifiers.len()
        invariant
            i <= modifiers@.len(),
            forall|k: int| 0 <= k < i ==> modifiers@[k] != m,
        decreases modifiers@.len() - i,
    {
        if modifiers[i] == m {
            return true;
        }
        i += 1;
    }
    false
}

fn push_if_held(parts: &mut Vec<String>, modifiers: &Vec<HotkeyModifier>, m: HotkeyModifier)
    ensures
        text::texts(final(parts)@) == if modifiers@.contains(m) {
            text::texts(old(parts)@).push(modifier_name(m))
        } else {
            text::texts(old(parts)@)
        },
{
    if holds(modifiers, m) {
        let ghost before = parts@;
        parts.push(text::owned(name_of_modifier(m)));
        assert(text::texts(parts@) =~= text::texts(before).push(modifier_name(m)));
    }
}

fn combination_label(modifiers: &Vec<HotkeyModifier>, virtual_key: u32, name: Option<&str>) -> (r:
    String)
    ensures
        r@ == combination_text(modifiers@, virtual_key, text::opt_str(name)),
{
    let mut parts: Vec<String> = Vec::new();
    assert(text::texts(parts@) =~= Seq::<Seq<char>>::empty());
    push_if_held(&mut parts, modifiers, HotkeyModifier::Control);
    push_if_held(&mut parts, modifiers, HotkeyModifier::Alt);
    push_if_held(&mut parts, modifiers, HotkeyModifier::Shift);
    push_if_held(&mut parts, modifiers, HotkeyModifier::Win);
    proof {
        reveal_with_fuel(held_names, 5);
        assert(text::texts(parts@) == held_names(modifiers@, 4));
    }
    let ghost names = parts@;
    let key = match name {
        Some(n) => text::owned(n),
        None => {
            let number = text::padded_hex_text(virtual_key);
            text::joined2("VK 0x", number.as_str())
        },
    };
    let ghost shown = key@;
    parts.push(key);
    assert(text::texts(parts@) =~= text::texts(names).push(shown));
    text::join_text(&parts, "+")
}

/// A combination in words, like `Ctrl+Alt+W`, given the name of its key.
pub fn hotkey_display_label(hotkey: &HotkeyConfig, key_name: Option<&str>) -> (r: String)
    ensures
        r@ == combination_text(hotkey.modifiers@, hotkey.virtual_key, text::opt_str(key_name)),
{
    combination_label(&hotkey.modifiers, hotkey.virtual_key, key_name)
}

/// A cycling key in words, with the modifiers of the main combination. Where the key has no name,
/// only its number is shown.
pub fn cycle_combo_label(main: &HotkeyConfig, cycle_key: u32, key_name: Option<&str>) -> (r: String)
    ensures
        r@ == cycle_text(main.modifiers@, cycle_key, text::opt_str(key_name)),
{
    match key_name {
        Some(_) => combination_label(&main.modifiers, cycle_key, key_name),
        None => {
            let number = text::padded_hex_text(cycle_key);
            text::joined2("0x", number.as_str())
        },
    }
}

pub open spec fn cycle_text(
    modifiers: Seq<HotkeyModifier>,
    cycle_key: u32,
    name: Option<Seq<char>>,
) -> Seq<char> {
    match name {
        Some(_) => combination_text(modifiers, cycle_key, name),
        None => "0x"@ + text::padded_hex(cycle_key as nat),
    }
}

/// A combination reads the same in whatever order its modifiers are kept.
pub proof fn law_label_ignores_the_order_of_modifiers(
    a: Seq<HotkeyModifier>,
    b: Seq<HotkeyModifier>,
    virtual_key: u32,
    name: Option<Seq<char>>,
)
    requires
        forall|m: HotkeyModifier| a.contains(m) <==> b.contains(m),
    ensures
        combination_text(a, virtual_key, name) == combination_text(b, virtual_key, name),
{
    reveal_with_fuel(held_names, 5);
    assert(held_names(a, 4) == held_names(b, 4));
}

// ---------------------------------------------------------------------------
// Capturing a combination
// ---------------------------------------------------------------------------

/// What came of a captured combination.
#[derive(Debug)]
pub enum Captured {
    /// The key cannot be used.
    KeyRefused,
    /// The key needs a modifier.
    ModifierMissing,
    /// It is the combination in use.
    Unchanged,
    Changed(HotkeyConfig),
}

/// The modifiers that are held.
pub open spec fn held_modifiers(ctrl: bool, alt: bool, shift: bool, meta: bool) -> Seq<
    HotkeyModifier,
> {
    let none = Seq::<HotkeyModifier>::empty();
    let a = if ctrl {
        none.push(HotkeyModifier::Control)
    } else {
        none
    };
    let b = if alt {
        a.push(HotkeyModifier::Alt)
    } else {
        a
    };
    let c = if shift {
        b.push(HotkeyModifier::Shift)
    } else {
        b
    };
    if meta {
        c.push(HotkeyModifier::Win)
    } else {
        c
    }
}

fn same_modifiers(a: &Vec<HotkeyModifier>, b: &Vec<HotkeyModifier>) -> (r: bool)
    ensures
        r == (a@ == b@),
{
    if a.len() != b.len() {
        return false;
    }
    let mut i: usize = 0;
    while i < a.len()
        invariant
            i <= a@.len() == b@.len(),
            forall|k: int| 0 <= k < i ==> a@[k] == b@[k],
        decreases a@.len() - i,
    {
        if a[i] != b[i] {
            return false;
        }
        i += 1;
    }
    assert(a@ =~= b@);
    true
}

/// Decides about a combination that the user has pressed. `stands_alone` tells whether the key may
/// be used without a modifier.
pub fn capture_hotkey(
    ctrl: bool,
    alt: bool,
    shift: bool,
    meta: bool,
    virtual_key: Option<u32>,
    stands_alone: bool,
    current: &HotkeyConfig,
) -> (r: Captured)
    ensures
        ({
            let held = held_modifiers(ctrl, alt, shift, meta);
            match virtual_key {
                None => r is KeyRefused,
                Some(key) => if held.len() == 0 && !stands_alone {
                    r is ModifierMissing
                } else if current.modifiers@ == held && current.virtual_key == key {
                    r is Unchanged
                } else {
                    r matches Captured::Changed(h) && h.modifiers@ == held && h.virtual_key == key
                },
            }
        }),
{
    let key: u32 = match virtual_key {
        Some(key) => key,
        None => {
            return Captured::KeyRefused;
        },
    };
    let mut modifiers: Vec<HotkeyModifier> = Vec::new();
    if ctrl {
        modifiers.push(HotkeyModifier::Control);
    }
    if alt {
        modifiers.push(HotkeyModifier::Alt);
    }
    if shift {
        modifiers.push(HotkeyModifier::Shift);
    }
    if meta {
        modifiers.push(HotkeyModifier::Win);
    }
    assert(modifiers@ =~= held_modifiers(ctrl, alt, shift, meta));
    if modifiers.len() == 0 && !stands_alone {
        return Captured::ModifierMissing;
    }
    if same_modifiers(&current.modifiers, &modifiers) && current.virtual_key == key {
        return Captured::Unchanged;
    }
    Captured::Changed(HotkeyConfig { modifiers, virtual_key: key })
}

impl Captured {
    pub open spec fn says(self) -> Seq<char> {
        match self {
            Captured::KeyRefused => "このキーは登録できません。別のキーを押してください。"@,
            Captured::ModifierMissing =>
                "修飾キーと組み合わせてください（ファンクションキーのみ単独登録可）"@,
            Captured::Unchanged => "変更はありません。"@,
            Captured::Changed(_) => "保存しました。反映を確認しています…"@,
        }
    }

    pub fn message(&self) -> (r: &'static str)
        ensures
            r@ == self.says(),
    {
        match self {
            Captured::KeyRefused => "このキーは登録できません。別のキーを押してください。",
            Captured::ModifierMissing => {
                "修飾キーと組み合わせてください（ファンクションキーのみ単独登録可）"
            },
            Captured::Unchanged => "変更はありません。",
            Captured::Changed(_) => "保存しました。反映を確認しています…",
        }
    }

    /// The user may go on and press another combination.
    pub fn keeps_capturing(&self) -> (r: bool)
        ensures
            r == (self is KeyRefused || self is ModifierMissing),
    {
        match self {
            Captured::KeyRefused => true,
            Captured::ModifierMissing => true,
            _ => false,
        }
    }
}

/// Puts a combination in place of the one in use and hands that one back, so that it can be put in
/// place again where the new one turns out to be of no use.
pub fn replace_hotkey(settings: &mut UserSettings, hotkey: HotkeyConfig) -> (r: HotkeyConfig)
    ensures
        r == old(settings).quick_switcher_hotkey,
        *final(settings) == (UserSettings { quick_switcher_hotkey: hotkey, ..*old(settings) }),
{
    let mut other = hotkey;
    std::mem::swap(&mut settings.quick_switcher_hotkey, &mut other);
    other
}

/// Putting the old combination back leaves the settings as they were.
pub proof fn law_hotkey_can_be_taken_back(settings: UserSettings, hotkey: HotkeyConfig)
    ensures
        ({
            let changed = UserSettings { quick_switcher_hotkey: hotkey, ..settings };
            UserSettings { quick_switcher_hotkey: settings.quick_switcher_hotkey, ..changed }
                == settings
        }),
{
}

/// The new combination could not be had from the system: the one before, if it is still known, is
/// put in place again. Says whether it was.
pub fn hotkey_refused(settings: &mut UserSettings, before: &mut Option<HotkeyConfig>) -> (r: bool)
    ensures
        *final(before) is None,
        match *old(before) {
            Some(h) => r && *final(settings) == (UserSettings {
                quick_switcher_hotkey: h,
                ..*old(settings)
            }),
            None => !r && *final(settings) == *old(settings),
        },
{
    match before.take() {
        Some(h) => {
            settings.quick_switcher_hotkey = h;
            true
        },
        None => false,
    }
}

/// Why the system did not give the combination.
#[derive(Debug)]
pub enum HotkeyRegisterError {
    AlreadyRegistered,
    Other(String),
}

/// Says why the combination cannot be used.
pub fn hotkey_register_error_message(error: &HotkeyRegisterError) -> (r: String)
    ensures
        r@ == match *error {
            HotkeyRegisterError::AlreadyRegistered =>
                "このホットキーは他のアプリと競合しています。元のホットキーに戻しました。"@,
            HotkeyRegisterError::Other(cause) => "ホットキーの登録に失敗しました: "@ + cause@,
        },
{
    match error {
        HotkeyRegisterError::AlreadyRegistered => text::owned(
            "このホットキーは他のアプリと競合しています。元のホットキーに戻しました。",
        ),
        HotkeyRegisterError::Other(cause) => text::joined2(
            "ホットキーの登録に失敗しました: ",
            cause.as_str(),
        ),
    }
}

/// Takes a key for going to the next set (`which` is 1) or to the previous one.
pub fn set_cycle_key(settings: &mut UserSettings, which: i32, virtual_key: u32)
    ensures
        *final(settings) == if which == 1 {
            UserSettings { cycle_next_key: virtual_key, ..*old(settings) }
        } else {
            UserSettings { cycle_prev_key: virtual_key, ..*old(settings) }
        },
{
    if which == 1 {
        settings.cycle_next_key = virtual_key;
    } else {
        settings.cycle_prev_key = virtual_key;
    }
}

/// Says which keys go to the next and the previous set.
pub fn cycle_saved_message(next: &str, previous: &str) -> (r: String)
    ensures
        r@ == "次のセット="@ + next@ + " / 前のセット="@ + previous@ + " を保存しました。"@,
{
    let mut out = text::joined3("次のセット=", next, " / 前のセット=");
    out.append(previous);
    out.append(" を保存しました。");
    out
}

/// Says whether the program starts with the system.
pub fn autostart_message(enabled: bool) -> (r: &'static str)
    ensures
        r@ == if enabled {
            "Windows起動時の自動起動を有効にしました。"@
        } else {
            "自動起動を無効にしました。"@
        },
{
    if enabled {
        "Windows起動時の自動起動を有効にしました。"
    } else {
        "自動起動を無効にしました。"
    }
}

/// Says that the settings could not be saved.
pub fn save_failed_message(reason: &str) -> (r: String)
    ensures
        r@ == "設定の保存に失敗しました: "@ + reason@,
{
    text::joined2("設定の保存に失敗しました: ", reason)
}

/// The modifiers of a captured combination are exactly those that were held.
pub proof fn law_captured_modifiers_are_those_held(ctrl: bool, alt: bool, shift: bool, meta: bool)
    ensures
        ({
            let held = held_modifiers(ctrl, alt, shift, meta);
            &&& held.contains(HotkeyModifier::Control) == ctrl
            &&& held.contains(HotkeyModifier::Alt) == alt
            &&& held.contains(HotkeyModifier::Shift) == shift
            &&& held.contains(HotkeyModifier::Win) == meta
            &&& held.no_duplicates()
            &&& held.len() == 0 <==> !ctrl && !alt && !shift && !meta
        }),
{
    let none = Seq::<HotkeyModifier>::empty();
    let a = if ctrl {
        none.push(HotkeyModifier::Control)
    } else {
        none
    };
    let b = if alt {
        a.push(HotkeyModifier::Alt)
    } else {
        a
    };
    let c = if shift {
        b.push(HotkeyModifier::Shift)
    } else {
        b
    };
    let d = held_modifiers(ctrl, alt, shift, meta);
    if ctrl {
        assert(d[0] == HotkeyModifier::Control);
    }
    if alt {
        assert(d[a.len() as int] == HotkeyModifier::Alt);
    }
    if shift {
        assert(d[b.len() as int] == HotkeyModifier::Shift);
    }
    if meta {
        assert(d[c.len() as int] == HotkeyModifier::Win);
    }
}

} // verus!
