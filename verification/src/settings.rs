//! The user's settings and their defaults.

use vstd::prelude::*;

verus! {

/// Settings kept in the application's settings store.
#[derive(Debug, Clone)]
pub struct AppSettings {
    pub server_enabled: bool,
    pub server_host: String,
    pub server_port: u16,
    pub server_auto_start: bool,
    pub server_log_limit: u32,
    pub model_path: String,
    pub auto_copy_result: bool,
    pub save_history: bool,
    pub history_limit: u32,
    pub app_language: String,
    pub global_shortcut: String,
}

impl Default for AppSettings {
    /// Server off on 127.0.0.1:8000, history kept (up to 1000 entries),
    /// English, shortcut command+shift+k.
    fn default() -> (s: Self)
        ensures
            !s.server_enabled,
            s.server_host@ == "127.0.0.1"@,
            s.server_port == 8000,
            !s.server_auto_start,
            s.server_log_limit == 100,
            s.model_path@ == Seq::<char>::empty(),
            !s.auto_copy_result,
            s.save_history,
            s.history_limit == 1000,
            s.app_language@ == "en"@,
            s.global_shortcut@ == "command+shift+k"@,
    {
        AppSettings {
            server_enabled: false,
            server_host: "127.0.0.1".to_owned(),
            server_port: 8000,
            server_auto_start: false,
            server_log_limit: 100,
            model_path: String::new(),
            auto_copy_result: false,
            save_history: true,
            history_limit: 1000,
            app_language: "en".to_owned(),
            global_shortcut: "command+shift+k".to_owned(),
        }
    }
}

/// What the settings store holds under each key, read as the setting's
/// type: `None` where the key is missing or holds another type (numbers as
/// the unsigned integer that the store holds).
pub struct StoredSettings {
    pub server_enabled: Option<bool>,
    pub server_host: Option<String>,
    pub server_port: Option<u64>,
    pub server_auto_start: Option<bool>,
    pub server_log_limit: Option<u64>,
    pub model_path: Option<String>,
    pub auto_copy_result: Option<bool>,
    pub save_history: Option<bool>,
    pub history_limit: Option<u64>,
    pub app_language: Option<String>,
    pub global_shortcut: Option<String>,
}

/// A stored text, or the default.
fn text_or(stored: Option<String>, default: String) -> (r: String)
    ensures
        r@ == match stored {
            Some(s) => s@,
            None => default@,
        },
{
    match stored {
        Some(s) => s,
        None => default,
    }
}

/// The settings in effect: each stored value where the store has one, else
/// its default; all defaults where the store could not be opened (`None`).
/// A stored number is cut to the setting's width, as `as` does.
pub fn get_settings(stored: Option<StoredSettings>) -> (s: AppSettings)
    ensures
        ({
            match stored {
                None => {
                    &&& !s.server_enabled
                    &&& s.server_host@ == "127.0.0.1"@
                    &&& s.server_port == 8000
                    &&& !s.server_auto_start
                    &&& s.server_log_limit == 100
                    &&& s.model_path@ == Seq::<char>::empty()
                    &&& !s.auto_copy_result
                    &&& s.save_history
                    &&& s.history_limit == 1000
                    &&& s.app_language@ == "en"@
                    &&& s.global_shortcut@ == "command+shift+k"@
                },
                Some(st) => {
                    &&& s.server_enabled == st.server_enabled.unwrap_or(false)
                    &&& s.server_host@ == match st.server_host {
                        Some(h) => h@,
                        None => "127.0.0.1"@,
                    }
                    &&& s.server_port == match st.server_port {
                        Some(n) => n as u16,
                        None => 8000u16,
                    }
                    &&& s.server_auto_start == st.server_auto_start.unwrap_or(false)
                    &&& s.server_log_limit == match st.server_log_limit {
                        Some(n) => n as u32,
                        None => 100u32,
                    }
                    &&& s.model_path@ == match st.model_path {
                        Some(p) => p@,
                        None => Seq::<char>::empty(),
                    }
                    &&& s.auto_copy_result == st.auto_copy_result.unwrap_or(false)
                    &&& s.save_history == st.save_history.unwrap_or(true)
                    &&& s.history_limit == match st.history_limit {
                        Some(n) => n as u32,
                        None => 1000u32,
                    }
                    &&& s.app_language@ == match st.app_language {
                        Some(l) => l@,
                        None => "en"@,
                    }
                    &&& s.global_shortcut@ == match st.global_shortcut {
                        Some(k) => k@,
                        None => "command+shift+k"@,
                    }
                },
            }
        }),
{
    let defaults = AppSettings::default();
    match stored {
        None => defaults,
        Some(st) => {
            let server_port: u16 = match st.server_port {
                Some(n) => n as u16,
                None => defaults.server_port,
            };
            let server_log_limit: u32 = match st.server_log_limit {
                Some(n) => n as u32,
                None => defaults.server_log_limit,
            };
            let history_limit: u32 = match st.history_limit {
                Some(n) => n as u32,
                None => defaults.history_limit,
            };
            AppSettings {
                server_enabled: st.server_enabled.unwrap_or(defaults.server_enabled),
                server_host: text_or(st.server_host, defaults.server_host),
                server_port,
                server_auto_start: st.server_auto_start.unwrap_or(defaults.server_auto_start),
                server_log_limit,
                model_path: text_or(st.model_path, defaults.model_path),
                auto_copy_result: st.auto_copy_result.unwrap_or(defaults.auto_copy_result),
                save_history: st.save_history.unwrap_or(defaults.save_history),
                history_limit,
                app_language: text_or(st.app_language, defaults.app_language),
                global_shortcut: text_or(st.global_shortcut, defaults.global_shortcut),
            }
        },
    }
}

} // verus!
