//! The application settings, and the periods and limits they stand for.

use vstd::prelude::*;
use crate::sync::provider::{provider_key, ProviderId, Tokens};
use crate::text::{chars_of, eq_chars, string_of};

verus! {

/// All settings of the application.
pub struct Settings {
    /// The dictation shortcut, as text like "alt+space".
    pub hotkey: String,
    /// File name of the active speech model.
    pub active_model: Option<String>,
    /// Microphone name; `None` is the system default.
    pub input_device: Option<String>,
    /// A short sound when recording starts.
    pub start_sound: bool,
    /// Keep the sound output awake with a silent stream.
    pub keep_audio_awake: bool,
    /// Window theme: "system", "light" or "dark".
    pub theme: String,
    /// Where sources downloaded by link are kept; `None` — not kept.
    pub downloads_dir: Option<String>,
    /// Where meeting exports go; `None` — Downloads.
    pub export_dir: Option<String>,
    /// Interface language: "auto", "ru" or "en".
    pub language: String,
    /// Ask for a folder on every export.
    pub export_ask: bool,
    /// Compute on the graphics card when it fits.
    pub use_gpu: bool,
    /// Start without a window.
    pub start_hidden: bool,
    /// Show the menu-bar icon.
    pub show_tray_icon: bool,
    /// The recording pill: "live", "minimal" or "none".
    pub overlay_style: String,
    /// Where the pill shows: "bottom" or "top".
    pub overlay_position: String,
    /// When to unload the model: "never", "immediately", "min2", "min5",
    /// "min10", "min15", "hour1".
    pub model_unload: String,
    /// The clipboard after pasting: "restore" or "keep".
    pub clipboard_handling: String,
    /// Press enter after pasting.
    pub auto_submit: bool,
    /// Which enter: "enter", "ctrl_enter", "cmd_enter".
    pub auto_submit_key: String,
    /// Mute system sound while recording.
    pub mute_while_recording: bool,
    /// Remove filler words from recognised text.
    pub remove_fillers: bool,
    /// How many recent dictations to keep.
    pub history_limit: usize,
    /// When to clean history: "keep_limit", "never", "days3", "weeks2",
    /// "months3".
    pub history_retention: String,
    /// Keep the sound of dictations.
    pub keep_audio: bool,
    /// Sound of meeting recordings: "keep" or "delete_done".
    pub meeting_audio: String,
    /// The connected cloud: "yandex" or "google" (empty with a token means
    /// Yandex, from versions before Google Drive).
    pub sync_provider: String,
    /// The access token; `None` — not connected.
    pub sync_token: Option<String>,
    pub sync_refresh: Option<String>,
    /// When the token stops working (milliseconds).
    pub sync_expires_at: i64,
    /// Who is signed in.
    pub sync_login: String,
    /// Send the sound of recordings too.
    pub sync_audio: bool,
    /// Summarise meetings that arrive from other devices.
    pub sync_auto_summary: bool,
    /// How often to look for changes: "min1", "min2", "min5", "min15",
    /// "hour1" or "manual".
    pub sync_interval: String,
}

/// The default shortcut: Alt+Space on macOS; elsewhere Alt+Space opens the
/// window menu, so Ctrl+Space.
pub open spec fn default_hotkey(mac: bool) -> Seq<char> {
    if mac {
        "alt+space"@
    } else {
        "ctrl+space"@
    }
}

/// Settings as a fresh install has them.
pub open spec fn is_default(s: Settings, mac: bool) -> bool {
    &&& s.hotkey@ == default_hotkey(mac)
    &&& s.active_model is None
    &&& s.input_device is None
    &&& s.start_sound
    &&& s.keep_audio_awake
    &&& s.theme@ == "system"@
    &&& s.downloads_dir is None
    &&& s.export_dir is None
    &&& !s.export_ask
    &&& s.language@ == "auto"@
    &&& s.use_gpu
    &&& !s.start_hidden
    &&& s.show_tray_icon
    &&& s.overlay_style@ == "live"@
    &&& s.overlay_position@ == "bottom"@
    &&& s.model_unload@ == "min5"@
    &&& s.clipboard_handling@ == "restore"@
    &&& !s.auto_submit
    &&& s.auto_submit_key@ == "enter"@
    &&& !s.mute_while_recording
    &&& !s.remove_fillers
    &&& s.history_limit == 50
    &&& s.history_retention@ == "keep_limit"@
    &&& s.keep_audio
    &&& s.meeting_audio@ == "keep"@
    &&& s.sync_provider@ == Seq::<char>::empty()
    &&& s.sync_token is None
    &&& s.sync_refresh is None
    &&& s.sync_expires_at == 0
    &&& s.sync_login@ == Seq::<char>::empty()
    &&& !s.sync_audio
    &&& s.sync_auto_summary
    &&& s.sync_interval@ == "min2"@
}

fn text(s: &str) -> (r: String)
    ensures
        r@ == s@,
{
    string_of(&chars_of(s))
}

fn same_as(s: &String, lit: &str) -> (r: bool)
    ensures
        r == (s@ == lit@),
{
    eq_chars(&chars_of(s.as_str()), &chars_of(lit))
}

/// How often to look at the cloud, in seconds, for an interval setting;
/// `None` — only by hand. Unknown values mean two minutes.
pub open spec fn sync_period_secs(interval: Seq<char>) -> Option<u64> {
    if interval == "manual"@ {
        None
    } else if interval == "min1"@ {
        Some(60)
    } else if interval == "min5"@ {
        Some(300)
    } else if interval == "min15"@ {
        Some(900)
    } else if interval == "hour1"@ {
        Some(3600)
    } else {
        Some(120)
    }
}

/// After how many idle seconds to unload the model; `None` — never.
/// Unknown values mean five minutes.
pub open spec fn unload_secs(setting: Seq<char>) -> Option<u64> {
    if setting == "never"@ {
        None
    } else if setting == "immediately"@ {
        Some(0)
    } else if setting == "min2"@ {
        Some(120)
    } else if setting == "min10"@ {
        Some(600)
    } else if setting == "min15"@ {
        Some(900)
    } else if setting == "hour1"@ {
        Some(3600)
    } else {
        Some(300)
    }
}

/// How long history is kept, in milliseconds; `None` — no limit in time.
pub open spec fn retention(setting: Seq<char>) -> Option<i64> {
    if setting == "days3"@ {
        Some(259200000)
    } else if setting == "weeks2"@ {
        Some(1209600000)
    } else if setting == "months3"@ {
        Some(7776000000)
    } else {
        None
    }
}

/// A value handed to [`Settings::set_option`], read the ways the setting
/// may need it: as a flag, as text (empty when it is not text), as a number.
pub struct OptionValue {
    pub as_bool: Option<bool>,
    pub text: String,
    pub as_u64: Option<u64>,
}

/// Why a setting could not be changed.
pub enum SettingsError {
    /// There is no setting by that name.
    UnknownOption(String),
}

/// The flag a value holds, or `default` when it holds none.
pub open spec fn flag(v: OptionValue, default: bool) -> bool {
    match v.as_bool {
        Some(b) => b,
        None => default,
    }
}

/// The history length a value asks for: 50 when it is no number, held to
/// 1 ..= 1000.
pub open spec fn limit_of(v: OptionValue) -> usize {
    let n: u64 = match v.as_u64 {
        Some(n) => n,
        None => 50,
    };
    if n < 1 {
        1
    } else if n > 1000 {
        1000
    } else {
        n as usize
    }
}

/// The settings with one of those the window edits changed by name; `None`
/// when there is no such setting.
pub open spec fn option_set(s: Settings, key: Seq<char>, v: OptionValue) -> Option<Settings> {
    if key == "start_hidden"@ {
        Some(Settings { start_hidden: flag(v, false), ..s })
    } else if key == "show_tray_icon"@ {
        Some(Settings { show_tray_icon: flag(v, true), ..s })
    } else if key == "overlay_style"@ {
        Some(Settings { overlay_style: v.text, ..s })
    } else if key == "overlay_position"@ {
        Some(Settings { overlay_position: v.text, ..s })
    } else if key == "model_unload"@ {
        Some(Settings { model_unload: v.text, ..s })
    } else if key == "clipboard_handling"@ {
        Some(Settings { clipboard_handling: v.text, ..s })
    } else if key == "auto_submit"@ {
        Some(Settings { auto_submit: flag(v, false), ..s })
    } else if key == "auto_submit_key"@ {
        Some(Settings { auto_submit_key: v.text, ..s })
    } else if key == "mute_while_recording"@ {
        Some(Settings { mute_while_recording: flag(v, false), ..s })
    } else if key == "remove_fillers"@ {
        Some(Settings { remove_fillers: flag(v, false), ..s })
    } else if key == "history_limit"@ {
        Some(Settings { history_limit: limit_of(v), ..s })
    } else if key == "history_retention"@ {
        Some(Settings { history_retention: v.text, ..s })
    } else if key == "keep_audio"@ {
        Some(Settings { keep_audio: flag(v, true), ..s })
    } else if key == "sync_audio"@ {
        Some(Settings { sync_audio: flag(v, false), ..s })
    } else if key == "sync_auto_summary"@ {
        Some(Settings { sync_auto_summary: flag(v, true), ..s })
    } else if key == "sync_interval"@ {
        Some(Settings { sync_interval: v.text, ..s })
    } else {
        None
    }
}

/// What has to happen at once after a setting changed, not at the next
/// start.
#[derive(Clone, Copy, Debug, PartialEq, Eq)]
pub enum Effect {
    /// Show or hide the menu-bar icon.
    Tray,
    /// Trim the history to its new limits.
    HistoryLimits,
    /// Sync now, so that the sound goes up at once.
    SyncNow,
    /// Unload the model if it is now to be unloaded at once.
    ModelUnload,
    Nothing,
}

/// What has to happen at once after the setting `key` changed.
pub open spec fn effect_spec(key: Seq<char>) -> Effect {
    if key == "show_tray_icon"@ {
        Effect::Tray
    } else if key == "history_limit"@ || key == "history_retention"@ {
        Effect::HistoryLimits
    } else if key == "sync_audio"@ {
        Effect::SyncNow
    } else if key == "model_unload"@ {
        Effect::ModelUnload
    } else {
        Effect::Nothing
    }
}

/// What has to happen at once after the setting `key` changed.
pub fn effect_of(key: &str) -> (r: Effect)
    ensures
        r == effect_spec(key@),
{
    let k = text(key);
    if same_as(&k, "show_tray_icon") {
        Effect::Tray
    } else if same_as(&k, "history_limit") || same_as(&k, "history_retention") {
        Effect::HistoryLimits
    } else if same_as(&k, "sync_audio") {
        Effect::SyncNow
    } else if same_as(&k, "model_unload") {
        Effect::ModelUnload
    } else {
        Effect::Nothing
    }
}

impl Settings {
    /// After a sign-in: the cloud, its tokens (a blank refresh token is no
    /// token) and who signed in.
    pub fn sign_in(&mut self, provider: ProviderId, tokens: Tokens, login: String)
        ensures
            final(self).sync_provider@ == provider_key(provider),
            *final(self) == (Settings {
                sync_provider: final(self).sync_provider,
                sync_token: Some(tokens.access_token),
                sync_refresh: if tokens.refresh_token@.len() > 0 { Some(tokens.refresh_token) } else { None },
                sync_expires_at: tokens.expires_at,
                sync_login: login,
                ..*old(self)
            }),
    {
        self.sync_provider = text(provider.id());
        self.sync_token = Some(tokens.access_token);
        self.sync_refresh = if tokens.refresh_token.as_str().is_empty() {
            None
        } else {
            Some(tokens.refresh_token)
        };
        self.sync_expires_at = tokens.expires_at;
        self.sync_login = login;
    }

    /// After signing out: the tokens and the login are gone, the cloud stays
    /// chosen. Returns the access token there was, to revoke it.
    pub fn sign_out(&mut self) -> (token: Option<String>)
        ensures
            token == old(self).sync_token,
            final(self).sync_login@.len() == 0,
            *final(self) == (Settings {
                sync_token: None,
                sync_refresh: None,
                sync_expires_at: 0,
                sync_login: final(self).sync_login,
                ..*old(self)
            }),
    {
        let token = self.sync_token.take();
        self.sync_refresh = None;
        self.sync_expires_at = 0;
        self.sync_login = String::new();
        token
    }

    /// Changes one of the settings the window edits, by name; an unknown
    /// name changes nothing and is an error.
    #[verifier::spinoff_prover]
    #[verifier::rlimit(80)]
    pub fn set_option(&mut self, key: &str, value: OptionValue) -> (r: Result<(), SettingsError>)
        ensures
            match r {
                Ok(()) => option_set(*old(self), key@, value) == Some(*final(self)),
                Err(SettingsError::UnknownOption(k)) => {
                    &&& option_set(*old(self), key@, value) is None
                    &&& k@ == key@
                    &&& *final(self) == *old(self)
                },
            },
    {
        let k = text(key);
        let flag_or = |d: bool| -> (b: bool)
            ensures
                b == flag(value, d),
            {
                match value.as_bool {
                    Some(b) => b,
                    None => d,
                }
            };
        if same_as(&k, "start_hidden") {
            self.start_hidden = flag_or(false);
        } else if same_as(&k, "show_tray_icon") {
            self.show_tray_icon = flag_or(true);
        } else if same_as(&k, "overlay_style") {
            self.overlay_style = value.text;
        } else if same_as(&k, "overlay_position") {
            self.overlay_position = value.text;
        } else if same_as(&k, "model_unload") {
            self.model_unload = value.text;
        } else if same_as(&k, "clipboard_handling") {
            self.clipboard_handling = value.text;
        } else if same_as(&k, "auto_submit") {
            self.auto_submit = flag_or(false);
        } else if same_as(&k, "auto_submit_key") {
            self.auto_submit_key = value.text;
        } else if same_as(&k, "mute_while_recording") {
            self.mute_while_recording = flag_or(false);
        } else if same_as(&k, "remove_fillers") {
            self.remove_fillers = flag_or(false);
        } else if same_as(&k, "history_limit") {
            let n: u64 = match value.as_u64 {
                Some(n) => n,
                None => 50,
            };
            self.history_limit = if n < 1 {
                1
            } else if n > 1000 {
                1000
            } else {
                n as usize
            };
        } else if same_as(&k, "history_retention") {
            self.history_retention = value.text;
        } else if same_as(&k, "keep_audio") {
            self.keep_audio = flag_or(true);
        } else if same_as(&k, "sync_audio") {
            self.sync_audio = flag_or(false);
        } else if same_as(&k, "sync_auto_summary") {
            self.sync_auto_summary = flag_or(true);
        } else if same_as(&k, "sync_interval") {
            self.sync_interval = value.text;
        } else {
            return Err(SettingsError::UnknownOption(k));
        }
        Ok(())
    }

    /// The settings of a fresh install; `mac` picks the default shortcut.
    pub fn defaults(mac: bool) -> (s: Settings)
        ensures
            is_default(s, mac),
    {
        Settings {
            hotkey: if mac { text("alt+space") } else { text("ctrl+space") },
            active_model: None,
            input_device: None,
            start_sound: true,
            keep_audio_awake: true,
            theme: text("system"),
            downloads_dir: None,
            export_dir: None,
            export_ask: false,
            language: text("auto"),
            use_gpu: true,
            start_hidden: false,
            show_tray_icon: true,
            overlay_style: text("live"),
            overlay_position: text("bottom"),
            model_unload: text("min5"),
            clipboard_handling: text("restore"),
            auto_submit: false,
            auto_submit_key: text("enter"),
            mute_while_recording: false,
            remove_fillers: false,
            history_limit: 50,
            history_retention: text("keep_limit"),
            keep_audio: true,
            meeting_audio: text("keep"),
            sync_provider: String::new(),
            sync_token: None,
            sync_refresh: None,
            sync_expires_at: 0,
            sync_login: String::new(),
            sync_audio: false,
            sync_auto_summary: true,
            sync_interval: text("min2"),
        }
    }

    /// How often to look at the cloud, in seconds; `None` — only by hand.
    pub fn sync_period(&self) -> (r: Option<u64>)
        ensures
            r == sync_period_secs(self.sync_interval@),
    {
        let v = &self.sync_interval;
        if same_as(v, "manual") {
            None
        } else if same_as(v, "min1") {
            Some(60)
        } else if same_as(v, "min5") {
            Some(300)
        } else if same_as(v, "min15") {
            Some(900)
        } else if same_as(v, "hour1") {
            Some(3600)
        } else {
            Some(120)
        }
    }

    /// After how many idle seconds to unload the model; `None` — never.
    pub fn unload_after(&self) -> (r: Option<u64>)
        ensures
            r == unload_secs(self.model_unload@),
    {
        let v = &self.model_unload;
        if same_as(v, "never") {
            None
        } else if same_as(v, "immediately") {
            Some(0)
        } else if same_as(v, "min2") {
            Some(120)
        } else if same_as(v, "min10") {
            Some(600)
        } else if same_as(v, "min15") {
            Some(900)
        } else if same_as(v, "hour1") {
            Some(3600)
        } else {
            Some(300)
        }
    }

    /// How long to keep history, in milliseconds; `None` — no limit in time.
    pub fn retention_ms(&self) -> (r: Option<i64>)
        ensures
            r == retention(self.history_retention@),
    {
        let v = &self.history_retention;
        if same_as(v, "days3") {
            Some(3 * 24 * 3600 * 1000)
        } else if same_as(v, "weeks2") {
            Some(14 * 24 * 3600 * 1000)
        } else if same_as(v, "months3") {
            Some(90 * 24 * 3600 * 1000)
        } else {
            None
        }
    }
}

} // verus!
