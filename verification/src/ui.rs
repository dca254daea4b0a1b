//! The decisions of the player's screens: how keys change the library selection,
//! the settings dialogs and playback, independent of the terminal itself.

use vstd::prelude::*;
use crate::models::{AppConfig, CharsetPreset, QuantizationLevel};

verus! {

/// The keys the screens respond to.
#[derive(Debug, Clone, Copy, PartialEq, Eq, Structural)]
pub enum Key {
    Esc,
    Enter,
    Up,
    Down,
    Left,
    Right,
    Delete,
    Char(char),
    Other,
}

/// The position after `idx` in a list of `len` items, wrapping to the first.
pub open spec fn spec_next_index(idx: int, len: int) -> int {
    (idx + 1) % len
}

/// The position before `idx` in a list of `len` items, wrapping to the last.
pub open spec fn spec_prev_index(idx: int, len: int) -> int {
    if idx == 0 { len - 1 } else { idx - 1 }
}

/// The position after `idx`, wrapping to the first.
pub fn next_index(idx: usize, len: usize) -> (r: usize)
    requires
        len > 0,
        idx < usize::MAX,
    ensures
        r == spec_next_index(idx as int, len as int),
        r < len,
{
    (idx + 1) % len
}

/// The position before `idx`, wrapping to the last.
pub fn prev_index(idx: usize, len: usize) -> (r: usize)
    requires
        len > 0,
    ensures
        r == spec_prev_index(idx as int, len as int),
{
    if idx == 0 { len - 1 } else { idx - 1 }
}

/// Moving forward then back returns to the same item, and so does moving back then forward.
pub proof fn lemma_next_prev_index(idx: int, len: int)
    requires
        0 <= idx < len,
    ensures
        spec_prev_index(spec_next_index(idx, len), len) == idx,
        spec_next_index(spec_prev_index(idx, len), len) == idx,
        0 <= spec_next_index(idx, len) < len,
        0 <= spec_prev_index(idx, len) < len,
{
    if idx + 1 < len {
        vstd::arithmetic::div_mod::lemma_small_mod((idx + 1) as nat, len as nat);
    } else {
        vstd::arithmetic::div_mod::lemma_mod_self_0(len);
    }
    if idx > 0 {
        vstd::arithmetic::div_mod::lemma_small_mod(idx as nat, len as nat);
    } else {
        vstd::arithmetic::div_mod::lemma_mod_self_0(len);
    }
}

/// Moving forward `len` times returns to the start.
pub proof fn lemma_next_index_cycle(idx: int, len: int, steps: nat)
    requires
        0 <= idx < len,
    ensures
        iterate_next(idx, len, steps) == (idx + steps) % len,
    decreases steps,
{
    if steps > 0 {
        lemma_next_index_cycle(idx, len, (steps - 1) as nat);
        let a = idx + steps - 1;
        assert((a % len + 1) % len == (a + 1) % len) by {
            vstd::arithmetic::div_mod::lemma_add_mod_noop(a, 1, len);
            vstd::arithmetic::div_mod::lemma_add_mod_noop(a % len, 1, len);
            vstd::arithmetic::div_mod::lemma_mod_twice(a, len);
        }
    } else {
        vstd::arithmetic::div_mod::lemma_small_mod(idx as nat, len as nat);
    }
}

/// `idx` moved forward `steps` times.
pub open spec fn iterate_next(idx: int, len: int, steps: nat) -> int
    decreases steps,
{
    if steps == 0 { idx } else { spec_next_index(iterate_next(idx, len, (steps - 1) as nat), len) }
}

/// The selection after the list shrank to `len` items: past the end moves to the last item.
pub fn index_after_removal(idx: usize, len: usize) -> (r: usize)
    ensures
        r == if idx >= len && len > 0 { (len - 1) as usize } else { idx },
        len > 0 ==> r < len,
        r <= idx,
        idx < len ==> r == idx,
        len > 0 && idx >= len ==> r + 1 == len,
{
    if idx >= len && len > 0 { len - 1 } else { idx }
}

// ---------------------------------------------------------------------------
// The defaults dialog
// ---------------------------------------------------------------------------

/// What a key does in the defaults dialog.
#[derive(Debug, Clone, Copy, PartialEq, Eq, Structural)]
pub enum DialogOutcome {
    /// The dialog stays open.
    Stay,
    /// The dialog closes without saving.
    Close,
    /// The edited defaults are saved and the dialog closes.
    Save,
}

/// The defaults dialog: the item under the cursor (0: no-clip, 1: dashboard) and the edited values.
#[derive(Debug, Clone, Copy)]
pub struct ConfigDialog {
    pub active_item: usize,
    pub config: AppConfig,
}

impl ConfigDialog {
    /// The dialog and the outcome after one key (see [`ConfigDialog::on_key`]).
    pub open spec fn after_key(self, key: Key) -> (Self, DialogOutcome) {
        if key == Key::Esc {
            (self, DialogOutcome::Close)
        } else if key == Key::Down || key == Key::Char('j') {
            (ConfigDialog { active_item: ((self.active_item + 1) % 2) as usize, ..self }, DialogOutcome::Stay)
        } else if key == Key::Up || key == Key::Char('k') {
            (ConfigDialog { active_item: if self.active_item == 0 { 1usize } else { 0usize }, ..self }, DialogOutcome::Stay)
        } else if key == Key::Left || key == Key::Right || key == Key::Char(' ') {
            if self.active_item == 0 {
                (ConfigDialog { config: AppConfig { default_noclip: !self.config.default_noclip, ..self.config }, ..self },
                    DialogOutcome::Stay)
            } else {
                (ConfigDialog { config: AppConfig { default_dashboard: !self.config.default_dashboard, ..self.config }, ..self },
                    DialogOutcome::Stay)
            }
        } else if key == Key::Enter {
            (self, DialogOutcome::Save)
        } else {
            (self, DialogOutcome::Stay)
        }
    }

    /// A dialog opened on the given defaults, with the cursor on the first item.
    pub fn open(config: AppConfig) -> (d: Self)
        ensures
            d.active_item == 0,
            d.config == config,
    {
        ConfigDialog { active_item: 0, config }
    }

    /// Handles one key: Esc closes, Enter saves, Down/`j` and Up/`k` move between the two
    /// items, Left/Right/Space flip the item under the cursor.
    pub fn on_key(&mut self, key: Key) -> (o: DialogOutcome)
        ensures
            (*final(self), o) == old(self).after_key(key),
            key == Key::Esc ==> o == DialogOutcome::Close && *final(self) == *old(self),
            key == Key::Enter ==> o == DialogOutcome::Save && *final(self) == *old(self),
            (key == Key::Down || key == Key::Char('j')) ==> o == DialogOutcome::Stay
                && final(self).active_item == (old(self).active_item + 1) % 2 && final(self).config == old(self).config,
            (key == Key::Up || key == Key::Char('k')) ==> o == DialogOutcome::Stay
                && final(self).active_item == (if old(self).active_item == 0 { 1usize } else { 0usize })
                && final(self).config == old(self).config,
            (key == Key::Left || key == Key::Right || key == Key::Char(' ')) ==> o == DialogOutcome::Stay
                && final(self).active_item == old(self).active_item
                && (old(self).active_item == 0 ==> final(self).config.default_noclip == !old(self).config.default_noclip
                    && final(self).config.default_dashboard == old(self).config.default_dashboard)
                && (old(self).active_item != 0 ==> final(self).config.default_dashboard == !old(self).config.default_dashboard
                    && final(self).config.default_noclip == old(self).config.default_noclip),
            !(key == Key::Esc || key == Key::Enter || key == Key::Down || key == Key::Char('j') || key == Key::Up
                || key == Key::Char('k') || key == Key::Left || key == Key::Right || key == Key::Char(' '))
                ==> o == DialogOutcome::Stay && *final(self) == *old(self),
    {
        if key == Key::Esc {
            return DialogOutcome::Close;
        }
        if key == Key::Down || key == Key::Char('j') {
            self.active_item = (self.active_item % 2 + 1) % 2;
            assert((old(self).active_item % 2 + 1) % 2 == (old(self).active_item + 1) % 2) by {
                vstd::arithmetic::div_mod::lemma_add_mod_noop(old(self).active_item as int, 1, 2);
            }
            return DialogOutcome::Stay;
        }
        if key == Key::Up || key == Key::Char('k') {
            self.active_item = if self.active_item == 0 { 1 } else { 0 };
            return DialogOutcome::Stay;
        }
        if key == Key::Left || key == Key::Right || key == Key::Char(' ') {
            if self.active_item == 0 {
                self.config.default_noclip = !self.config.default_noclip;
            } else {
                self.config.default_dashboard = !self.config.default_dashboard;
            }
            return DialogOutcome::Stay;
        }
        if key == Key::Enter {
            return DialogOutcome::Save;
        }
        DialogOutcome::Stay
    }
}

/// In the defaults dialog, Down and Up (or `j` and `k`) move between the two items, one
/// undoing the other, without changing a value; Left, Right and Space flip the value under
/// the cursor only, twice giving it back; Esc closes and Enter saves, changing nothing.
pub proof fn lemma_dialog_keys(d: ConfigDialog)
    requires
        d.active_item < 2,
    ensures
        d.after_key(Key::Down).0.after_key(Key::Up).0 == d,
        d.after_key(Key::Up).0.after_key(Key::Down).0 == d,
        d.after_key(Key::Down).0.active_item != d.active_item,
        d.after_key(Key::Down).0.active_item < 2,
        d.after_key(Key::Down).0.config == d.config,
        d.after_key(Key::Char('j')) == d.after_key(Key::Down),
        d.after_key(Key::Char('k')) == d.after_key(Key::Up),
        d.after_key(Key::Char(' ')).0.after_key(Key::Char(' ')).0 == d,
        d.after_key(Key::Left) == d.after_key(Key::Char(' ')),
        d.after_key(Key::Right) == d.after_key(Key::Char(' ')),
        d.after_key(Key::Char(' ')).1 == DialogOutcome::Stay,
        d.active_item == 0 ==> d.after_key(Key::Char(' ')).0.config.default_noclip != d.config.default_noclip
            && d.after_key(Key::Char(' ')).0.config.default_dashboard == d.config.default_dashboard,
        d.active_item == 1 ==> d.after_key(Key::Char(' ')).0.config.default_dashboard != d.config.default_dashboard
            && d.after_key(Key::Char(' ')).0.config.default_noclip == d.config.default_noclip,
        d.after_key(Key::Char(' ')).0.active_item == d.active_item,
        d.after_key(Key::Esc) == (d, DialogOutcome::Close),
        d.after_key(Key::Enter) == (d, DialogOutcome::Save),
{
}

// ---------------------------------------------------------------------------
// The library screen
// ---------------------------------------------------------------------------

/// What the library screen does after a key.
#[derive(Debug, Clone, Copy)]
pub enum SelectorAction {
    /// Nothing beyond the state change.
    Continue,
    /// The character joins the paste buffer, which is then tried as a path.
    AddToPaste(char),
    /// More input is waiting (a paste in progress): the character joins the paste buffer only.
    HoldForPaste(char),
    /// The defaults dialog is to be opened on the saved defaults.
    OpenConfig,
    /// The edited defaults are to be saved.
    SaveConfig(AppConfig),
    /// The library screen closes.
    Exit,
    /// The animation at this position is to be loaded and played.
    Load(usize),
    /// The animation at this position is to be deleted.
    Delete(usize),
}

/// The library screen's state: the selected animation, whether help shows, and the
/// defaults dialog when it is open.
#[derive(Debug, Clone, Copy)]
pub struct SelectorState {
    pub selected: usize,
    pub help: bool,
    pub dialog: Option<ConfigDialog>,
}

/// Whether a key is `?`, `c` or `C`, the keys that may be part of a paste.
pub open spec fn may_be_pasted(key: Key) -> bool {
    key == Key::Char('?') || key == Key::Char('c') || key == Key::Char('C')
}

impl SelectorState {
    /// The state and action after a key, with `list_len` animations listed and `more_pending`
    /// telling whether more input was already waiting. Help closes on any key; an open
    /// dialog takes the key; `?` opens help and `c` the dialog unless a paste is in
    /// progress; Esc exits; with animations listed, Down/`j` and Up/`k` move the selection
    /// (wrapping), Enter loads and Delete deletes the selected one; other characters join
    /// the paste buffer.
    pub open spec fn after_key(self, key: Key, list_len: usize, more_pending: bool) -> (Self, SelectorAction) {
        if self.help {
            (SelectorState { help: false, ..self }, SelectorAction::Continue)
        } else if self.dialog is Some {
            let (d, o) = self.dialog->0.after_key(key);
            match o {
                DialogOutcome::Stay => (SelectorState { dialog: Some(d), ..self }, SelectorAction::Continue),
                DialogOutcome::Close => (SelectorState { dialog: None, ..self }, SelectorAction::Continue),
                DialogOutcome::Save => (SelectorState { dialog: None, ..self }, SelectorAction::SaveConfig(d.config)),
            }
        } else if may_be_pasted(key) {
            if more_pending {
                (self, SelectorAction::HoldForPaste(key->0))
            } else if key == Key::Char('?') {
                (SelectorState { help: true, ..self }, SelectorAction::Continue)
            } else {
                (self, SelectorAction::OpenConfig)
            }
        } else if key == Key::Esc {
            (self, SelectorAction::Exit)
        } else {
            let moved = if list_len > 0 && (key == Key::Down || key == Key::Char('j')) {
                SelectorState { selected: spec_next_index(self.selected as int, list_len as int) as usize, ..self }
            } else if list_len > 0 && (key == Key::Up || key == Key::Char('k')) {
                SelectorState { selected: spec_prev_index(self.selected as int, list_len as int) as usize, ..self }
            } else {
                self
            };
            if list_len > 0 && key == Key::Enter {
                (moved, SelectorAction::Load(moved.selected))
            } else if list_len > 0 && key == Key::Delete {
                (moved, SelectorAction::Delete(moved.selected))
            } else {
                match key {
                    Key::Char(ch) => (moved, SelectorAction::AddToPaste(ch)),
                    _ => (moved, SelectorAction::Continue),
                }
            }
        }
    }

    /// The screen as it opens: the first animation selected, no help, no dialog.
    pub fn new() -> (s: Self)
        ensures
            s.selected == 0,
            !s.help,
            s.dialog is None,
    {
        SelectorState { selected: 0, help: false, dialog: None }
    }

    /// Whether the key needs to know if more input is waiting (see [`SelectorState::on_key`]).
    pub fn asks_pending(&self, key: Key) -> (r: bool)
        ensures
            r == (!self.help && self.dialog is None && may_be_pasted(key)),
    {
        !self.help && self.dialog.is_none() && (key == Key::Char('?') || key == Key::Char('c') || key == Key::Char('C'))
    }

    /// Handles one key press; a selection on a listed animation stays on one.
    pub fn on_key(&mut self, key: Key, list_len: usize, more_pending: bool) -> (a: SelectorAction)
        ensures
            (*final(self), a) == old(self).after_key(key, list_len, more_pending),
            old(self).selected < list_len || list_len == 0 ==> final(self).selected < list_len || list_len == 0,
    {
        if self.help {
            self.help = false;
            return SelectorAction::Continue;
        }
        match self.dialog {
            Some(d) => {
                let mut d2 = d;
                let o = d2.on_key(key);
                match o {
                    DialogOutcome::Stay => {
                        self.dialog = Some(d2);
                        SelectorAction::Continue
                    },
                    DialogOutcome::Close => {
                        self.dialog = None;
                        SelectorAction::Continue
                    },
                    DialogOutcome::Save => {
                        self.dialog = None;
                        SelectorAction::SaveConfig(d2.config)
                    },
                }
            },
            None => {
                if key == Key::Char('?') || key == Key::Char('c') || key == Key::Char('C') {
                    if more_pending {
                        let ch = match key {
                            Key::Char(c) => c,
                            _ => ' ',
                        };
                        return SelectorAction::HoldForPaste(ch);
                    }
                    if key == Key::Char('?') {
                        self.help = true;
                        return SelectorAction::Continue;
                    }
                    return SelectorAction::OpenConfig;
                }
                if key == Key::Esc {
                    return SelectorAction::Exit;
                }
                if list_len > 0 {
                    if key == Key::Down || key == Key::Char('j') {
                        self.selected = (self.selected % list_len + 1) % list_len;
                        proof {
                            let a = old(self).selected as int;
                            let m = list_len as int;
                            assert(((a % m) + 1) % m == (a + 1) % m) by {
                                vstd::arithmetic::div_mod::lemma_add_mod_noop(a, 1, m);
                                vstd::arithmetic::div_mod::lemma_add_mod_noop(a % m, 1, m);
                                vstd::arithmetic::div_mod::lemma_mod_twice(a, m);
                            }
                        }
                    } else if key == Key::Up || key == Key::Char('k') {
                        self.selected = prev_index(self.selected, list_len);
                    }
                    proof {
                        if old(self).selected < list_len {
                            lemma_next_prev_index(old(self).selected as int, list_len as int);
                        }
                    }
                    if key == Key::Enter {
                        return SelectorAction::Load(self.selected);
                    }
                    if key == Key::Delete {
                        return SelectorAction::Delete(self.selected);
                    }
                }
                match key {
                    Key::Char(ch) => SelectorAction::AddToPaste(ch),
                    _ => SelectorAction::Continue,
                }
            },
        }
    }

    /// Opens the defaults dialog on `config`, with the cursor on the first item.
    pub fn open_config(&mut self, config: AppConfig)
        ensures
            final(self).dialog == Some(ConfigDialog { active_item: 0, config }),
            final(self).selected == old(self).selected,
            final(self).help == old(self).help,
    {
        self.dialog = Some(ConfigDialog::open(config));
    }

    /// Keeps the selection on a listed animation once the list shrank to `len` after a deletion.
    pub fn after_removal(&mut self, len: usize)
        ensures
            final(self).selected == (if old(self).selected >= len && len > 0 { (len - 1) as usize } else { old(self).selected }),
            final(self).help == old(self).help,
            final(self).dialog == old(self).dialog,
    {
        self.selected = index_after_removal(self.selected, len);
    }
}

/// The library screen's state after each key in turn, with `len` animations listed; each
/// key comes with whether more input was waiting.
pub open spec fn selector_after_keys(s: SelectorState, len: usize, keys: Seq<(Key, bool)>) -> SelectorState
    decreases keys.len(),
{
    if keys.len() == 0 {
        s
    } else {
        selector_after_keys(s, len, keys.drop_last()).after_key(keys.last().0, len, keys.last().1).0
    }
}

/// On the library screen, with a selection on a listed animation: Esc in the list view
/// (no help, no dialog) leaves the screen; an animation is loaded or deleted only as the
/// selected one, which is listed; and the selection stays on a listed animation.
pub proof fn lemma_library_key(s: SelectorState, key: Key, len: usize, pending: bool)
    requires
        s.selected < len,
    ensures
        ({
            let (t, a) = s.after_key(key, len, pending);
            &&& t.selected < len
            &&& (key == Key::Esc && !s.help && s.dialog is None ==> a is Exit)
            &&& (a matches SelectorAction::Load(i) ==> i == t.selected && i == s.selected && key == Key::Enter)
            &&& (a matches SelectorAction::Delete(i) ==> i == t.selected && i == s.selected && key == Key::Delete)
        }),
{
    lemma_next_prev_index(s.selected as int, len as int);
}

/// Whatever keys are pressed, the library screen's selection stays on a listed animation.
pub proof fn lemma_library_keys_keep_selection(s: SelectorState, len: usize, keys: Seq<(Key, bool)>)
    requires
        s.selected < len,
    ensures
        selector_after_keys(s, len, keys).selected < len,
    decreases keys.len(),
{
    if keys.len() > 0 {
        lemma_library_keys_keep_selection(s, len, keys.drop_last());
        lemma_library_key(selector_after_keys(s, len, keys.drop_last()), keys.last().0, len, keys.last().1);
    }
}

/// In the list view (no help, no dialog) with no more input waiting, `c` and `C` both open
/// the defaults dialog and `?` shows help, none of them changing anything else; with input
/// waiting each only joins the paste buffer. While help shows, any key only closes it.
pub proof fn lemma_library_screen_keys(s: SelectorState, key: Key, len: usize, pending: bool)
    requires
        !s.help,
        s.dialog is None,
    ensures
        s.after_key(Key::Char('c'), len, false) == (s, SelectorAction::OpenConfig),
        s.after_key(Key::Char('C'), len, false) == (s, SelectorAction::OpenConfig),
        s.after_key(Key::Char('c'), len, false) == s.after_key(Key::Char('C'), len, false),
        s.after_key(Key::Char('?'), len, false) == ((SelectorState { help: true, ..s }), SelectorAction::Continue),
        s.after_key(Key::Char('c'), len, true) == (s, SelectorAction::HoldForPaste('c')),
        s.after_key(Key::Char('C'), len, true) == (s, SelectorAction::HoldForPaste('C')),
        s.after_key(Key::Char('?'), len, true) == (s, SelectorAction::HoldForPaste('?')),
        (SelectorState { help: true, ..s }).after_key(key, len, pending) == (s, SelectorAction::Continue),
{
}

// ---------------------------------------------------------------------------
// The conversion settings screen
// ---------------------------------------------------------------------------

/// What a key does on the conversion settings screen.
#[derive(Debug, Clone, Copy, PartialEq, Eq, Structural)]
pub enum SettingsEffect {
    /// Nothing to redo.
    Unchanged,
    /// A setting changed: the preview is redone.
    Changed,
    /// The scale setting is to be lowered (by 0.05, if above 0.15).
    ScaleDown,
    /// The scale setting is to be raised (by 0.05, if below 1.0).
    ScaleUp,
    /// The import is cancelled.
    Cancel,
    /// The image is converted with the settings.
    Confirm,
}

/// The integer settings of a conversion (the scale is kept by the caller) and the
/// setting under the cursor: 0 width, 1 character set, 2 scale, 3 quantization.
#[derive(Debug, Clone)]
pub struct ConversionSettings {
    pub width: u32,
    pub preset: CharsetPreset,
    pub quantize: QuantizationLevel,
    pub active: usize,
}

impl ConversionSettings {
    /// The starting settings: 60 columns, block glyphs, standard quantization, cursor on width.
    pub fn new() -> (s: Self)
        ensures
            s.width == 60,
            s.preset == CharsetPreset::Blocks,
            s.quantize == QuantizationLevel::Standard,
            s.active == 0,
            width_ok(s.width),
    {
        ConversionSettings { width: 60, preset: CharsetPreset::Blocks, quantize: QuantizationLevel::Standard, active: 0 }
    }

    /// The settings and effect after one key. Esc cancels and Enter confirms; Up and Down
    /// move the cursor over the four settings, wrapping around; Left and Right lower and
    /// raise the setting under the cursor: the width by 5 within 20..=150, the character set
    /// and quantization to the previous or next preset or level, the scale by asking the
    /// caller.
    pub open spec fn after_key(self, key: Key) -> (Self, SettingsEffect) {
        match key {
            Key::Esc => (self, SettingsEffect::Cancel),
            Key::Enter => (self, SettingsEffect::Confirm),
            Key::Up => (ConversionSettings { active: if self.active == 0 { 3 } else { (self.active - 1) as usize }, ..self },
                SettingsEffect::Unchanged),
            Key::Down => (ConversionSettings { active: ((self.active + 1) % 4) as usize, ..self }, SettingsEffect::Unchanged),
            Key::Left => if self.active == 0 {
                if self.width > 20 {
                    (ConversionSettings { width: (self.width - 5) as u32, ..self }, SettingsEffect::Changed)
                } else {
                    (self, SettingsEffect::Unchanged)
                }
            } else if self.active == 1 {
                (ConversionSettings { preset: self.preset.spec_prev(), ..self }, SettingsEffect::Changed)
            } else if self.active == 2 {
                (self, SettingsEffect::ScaleDown)
            } else if self.active == 3 {
                (ConversionSettings { quantize: self.quantize.spec_prev(), ..self }, SettingsEffect::Changed)
            } else {
                (self, SettingsEffect::Unchanged)
            },
            Key::Right => if self.active == 0 {
                if self.width < 150 {
                    (ConversionSettings { width: (self.width + 5) as u32, ..self }, SettingsEffect::Changed)
                } else {
                    (self, SettingsEffect::Unchanged)
                }
            } else if self.active == 1 {
                (ConversionSettings { preset: self.preset.spec_next(), ..self }, SettingsEffect::Changed)
            } else if self.active == 2 {
                (self, SettingsEffect::ScaleUp)
            } else if self.active == 3 {
                (ConversionSettings { quantize: self.quantize.spec_next(), ..self }, SettingsEffect::Changed)
            } else {
                (self, SettingsEffect::Unchanged)
            },
            _ => (self, SettingsEffect::Unchanged),
        }
    }

    /// Handles one key (see [`ConversionSettings::after_key`]).
    pub fn on_key(&mut self, key: Key) -> (e: SettingsEffect)
        ensures
            (*final(self), e) == old(self).after_key(key),
    {
        match key {
            Key::Esc => SettingsEffect::Cancel,
            Key::Enter => SettingsEffect::Confirm,
            Key::Up => {
                self.active = if self.active == 0 { 3 } else { self.active - 1 };
                SettingsEffect::Unchanged
            },
            Key::Down => {
                self.active = (self.active % 4 + 1) % 4;
                proof {
                    vstd::arithmetic::div_mod::lemma_add_mod_noop(old(self).active as int, 1, 4);
                }
                SettingsEffect::Unchanged
            },
            Key::Left => {
                if self.active == 0 {
                    if self.width > 20 {
                        self.width = self.width - 5;
                        SettingsEffect::Changed
                    } else {
                        SettingsEffect::Unchanged
                    }
                } else if self.active == 1 {
                    let p = self.preset.clone();
                    self.preset = p.prev();
                    SettingsEffect::Changed
                } else if self.active == 2 {
                    SettingsEffect::ScaleDown
                } else if self.active == 3 {
                    self.quantize = self.quantize.prev();
                    SettingsEffect::Changed
                } else {
                    SettingsEffect::Unchanged
                }
            },
            Key::Right => {
                if self.active == 0 {
                    if self.width < 150 {
                        self.width = self.width + 5;
                        SettingsEffect::Changed
                    } else {
                        SettingsEffect::Unchanged
                    }
                } else if self.active == 1 {
                    let p = self.preset.clone();
                    self.preset = p.next();
                    SettingsEffect::Changed
                } else if self.active == 2 {
                    SettingsEffect::ScaleUp
                } else if self.active == 3 {
                    self.quantize = self.quantize.next();
                    SettingsEffect::Changed
                } else {
                    SettingsEffect::Unchanged
                }
            },
            _ => SettingsEffect::Unchanged,
        }
    }
}

/// Whether a conversion width is one the settings screen can reach: a multiple of 5
/// from 20 to 150.
pub open spec fn width_ok(w: u32) -> bool {
    w % 5 == 0 && 20 <= w <= 150
}

/// The settings after each key in turn.
pub open spec fn settings_after_keys(s: ConversionSettings, keys: Seq<Key>) -> ConversionSettings
    decreases keys.len(),
{
    if keys.len() == 0 {
        s
    } else {
        settings_after_keys(s, keys.drop_last()).after_key(keys.last()).0
    }
}

/// Whatever keys are pressed on the settings screen, a width that starts as a multiple of
/// 5 from 20 to 150 stays one (as the starting 60 is), and the cursor stays on one of the
/// four settings.
pub proof fn lemma_settings_keys_keep_width(s: ConversionSettings, keys: Seq<Key>)
    requires
        width_ok(s.width),
        s.active < 4,
    ensures
        width_ok(settings_after_keys(s, keys).width),
        settings_after_keys(s, keys).active < 4,
    decreases keys.len(),
{
    if keys.len() > 0 {
        lemma_settings_keys_keep_width(s, keys.drop_last());
    }
}

/// On the quantization setting, Left makes the quantization one level finer (its step 16
/// smaller, down to the finest step 16) and Right one level coarser (16 larger, up to 64);
/// either redoes the preview and changes nothing else.
pub proof fn lemma_settings_quantize_steps(s: ConversionSettings)
    requires
        s.active == 3,
    ensures
        ({
            let (l, el) = s.after_key(Key::Left);
            let (r, er) = s.after_key(Key::Right);
            &&& el == SettingsEffect::Changed
            &&& er == SettingsEffect::Changed
            &&& l.quantize.step() == (if s.quantize.step() > 16 { s.quantize.step() - 16 } else { 16 })
            &&& r.quantize.step() == (if s.quantize.step() < 64 { s.quantize.step() + 16 } else { 64 })
            &&& l.quantize.step() <= s.quantize.step() <= r.quantize.step()
            &&& l == (ConversionSettings { quantize: l.quantize, ..s })
            &&& r == (ConversionSettings { quantize: r.quantize, ..s })
        }),
        s.quantize != QuantizationLevel::Standard ==> s.after_key(Key::Left).0.quantize.spec_next() == s.quantize,
        s.quantize != QuantizationLevel::Retro ==> s.after_key(Key::Right).0.quantize.spec_prev() == s.quantize,
{
}

/// On the width setting, with a width the screen can reach, Right widens by 5 and Left
/// narrows by 5, each stopping at its bound (150 or 20) where nothing changes; one undoes
/// the other away from the bounds, and nothing else changes.
pub proof fn lemma_settings_width_steps(s: ConversionSettings)
    requires
        s.active == 0,
        width_ok(s.width),
    ensures
        ({
            let (l, el) = s.after_key(Key::Left);
            let (r, er) = s.after_key(Key::Right);
            &&& l.width == (if s.width > 20 { s.width - 5 } else { 20 })
            &&& r.width == (if s.width < 150 { s.width + 5 } else { 150 })
            &&& (el == SettingsEffect::Changed) == (s.width > 20)
            &&& (el == SettingsEffect::Unchanged) == (s.width == 20)
            &&& (er == SettingsEffect::Changed) == (s.width < 150)
            &&& (er == SettingsEffect::Unchanged) == (s.width == 150)
            &&& l == (ConversionSettings { width: l.width, ..s })
            &&& r == (ConversionSettings { width: r.width, ..s })
            &&& (s.width < 150 ==> r.after_key(Key::Left).0 == s)
            &&& (s.width > 20 ==> l.after_key(Key::Right).0 == s)
        }),
{
}

/// On the character-set setting, Left and Right cycle through the three named presets in
/// opposite directions (blocks, standard, detailed, then blocks again for Right): one undoes
/// the other, three presses of either come back, and a custom set goes to a named one.
pub proof fn lemma_settings_preset_cycle(s: ConversionSettings)
    requires
        s.active == 1,
    ensures
        s.after_key(Key::Left).1 == SettingsEffect::Changed,
        s.after_key(Key::Right).1 == SettingsEffect::Changed,
        s.after_key(Key::Right).0.preset !is Custom,
        s.after_key(Key::Left).0.preset !is Custom,
        s.preset !is Custom ==> s.after_key(Key::Right).0.after_key(Key::Left).0 == s,
        s.preset !is Custom ==> s.after_key(Key::Left).0.after_key(Key::Right).0 == s,
        s.preset !is Custom ==> s.after_key(Key::Right).0.after_key(Key::Right).0.after_key(Key::Right).0 == s,
        s.preset !is Custom ==> s.after_key(Key::Right).0.preset != s.preset,
        s.preset == CharsetPreset::Blocks ==> s.after_key(Key::Right).0.preset == CharsetPreset::Standard,
        s.preset == CharsetPreset::Standard ==> s.after_key(Key::Right).0.preset == CharsetPreset::Detailed,
        s.after_key(Key::Right).0 == (ConversionSettings { preset: s.after_key(Key::Right).0.preset, ..s }),
        s.after_key(Key::Left).0 == (ConversionSettings { preset: s.after_key(Key::Left).0.preset, ..s }),
{
}

/// Up and Down move the cursor over the four settings, one undoing the other; four presses
/// of Down come back; neither changes a setting. Esc cancels and Enter confirms, changing
/// nothing.
pub proof fn lemma_settings_cursor(s: ConversionSettings)
    requires
        s.active < 4,
    ensures
        s.after_key(Key::Down).0.after_key(Key::Up).0 == s,
        s.after_key(Key::Up).0.after_key(Key::Down).0 == s,
        s.after_key(Key::Down).0.after_key(Key::Down).0.after_key(Key::Down).0.after_key(Key::Down).0 == s,
        s.after_key(Key::Down).0.active != s.active,
        s.after_key(Key::Down).0.active < 4,
        s.after_key(Key::Up).0.active < 4,
        s.after_key(Key::Down).0 == (ConversionSettings { active: s.after_key(Key::Down).0.active, ..s }),
        s.after_key(Key::Up).0 == (ConversionSettings { active: s.after_key(Key::Up).0.active, ..s }),
        s.after_key(Key::Down).1 == SettingsEffect::Unchanged,
        s.after_key(Key::Up).1 == SettingsEffect::Unchanged,
        s.after_key(Key::Esc) == (s, SettingsEffect::Cancel),
        s.after_key(Key::Enter) == (s, SettingsEffect::Confirm),
{
}

} // verus!
