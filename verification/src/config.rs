//! The resolved configuration record the host hands the engine at startup:
//! window shape, launch targets, patch servers, client and patching options,
//! and optional localized messages.

use vstd::prelude::*;

verus! {

/// The host window's shape; opaque to the engine.
pub struct WindowConfig {
    pub title: String,
    pub width: u32,
    pub height: u32,
    pub resizable: bool,
}

impl Default for WindowConfig {
    /// The stock window.
    fn default() -> (r: WindowConfig)
        ensures
            r.title@ == "Kafra Client"@,
            r.width == 900,
            r.height == 600,
            !r.resizable,
    {
        WindowConfig {
            title: String::from_str("Kafra Client"),
            width: 900,
            height: 600,
            resizable: false,
        }
    }
}

/// How the game binary is launched.
pub struct PlayConfig {
    pub path: String,
    pub arguments: Vec<String>,
    pub exit_on_success: bool,
    pub skip_error: bool,
}

/// How the optional setup binary is launched.
pub struct SetupConfig {
    pub path: String,
    pub arguments: Vec<String>,
    pub exit_on_success: bool,
}

/// One patch server: where its manifest and its packages live.
pub struct PatchServer {
    pub name: String,
    pub plist_url: String,
    pub patch_url: String,
}

/// Web endpoints: the landing page and the patch servers.
pub struct WebConfig {
    pub index_url: String,
    pub preferred_patch_server: Option<String>,
    pub patch_servers: Vec<PatchServer>,
}

/// Client options: the default container's filename and whether single
/// sign-on is offered.
pub struct ClientConfig {
    pub default_grf_name: String,
    pub sso_login: bool,
}

/// Patching options.
pub struct PatchingConfig {
    pub in_place: bool,
    pub check_integrity: bool,
    pub create_grf: bool,
}

/// Localized messages for patching failures.
pub struct PatchingMessages {
    pub error_download: Option<String>,
    pub error_extract: Option<String>,
    pub error_generic: Option<String>,
}

/// Localized messages for launch failures.
pub struct GameMessages {
    pub launch_error: Option<String>,
}

/// Localized panel titles.
pub struct UiTitles {
    pub news: Option<String>,
    pub sso_login: Option<String>,
    pub server_status: Option<String>,
    pub actions: Option<String>,
}

/// Localized button labels.
pub struct UiButtons {
    pub login: Option<String>,
    pub setup: Option<String>,
    pub toggle_gray: Option<String>,
    pub toggle_normal: Option<String>,
    pub reset_cache: Option<String>,
    pub cancel: Option<String>,
    pub play: Option<String>,
    pub patching: Option<String>,
    pub wait: Option<String>,
    pub retry: Option<String>,
}

/// Localized status labels, one per engine state.
pub struct UiStatus {
    pub idle: Option<String>,
    pub checking: Option<String>,
    pub downloading: Option<String>,
    pub patching: Option<String>,
    pub ready: Option<String>,
    pub error: Option<String>,
}

/// Localized labels of the host UI.
pub struct UiMessages {
    pub titles: Option<UiTitles>,
    pub buttons: Option<UiButtons>,
    pub status: Option<UiStatus>,
}

/// All optional localized messages.
pub struct MessagesConfig {
    pub patching: Option<PatchingMessages>,
    pub game: Option<GameMessages>,
    pub ui: Option<UiMessages>,
}

/// The whole configuration record.
pub struct PatcherConfig {
    pub window: WindowConfig,
    pub play: PlayConfig,
    pub setup: Option<SetupConfig>,
    pub web: WebConfig,
    pub client: ClientConfig,
    pub patching: PatchingConfig,
    pub messages: Option<MessagesConfig>,
}

impl Default for PatcherConfig {
    /// The stock configuration: launch `ragnarok.exe`, patch `data.grf` in
    /// place, no setup target, no servers, no messages.
    fn default() -> (r: PatcherConfig)
        ensures
            r.window.title@ == "Kafra Client"@,
            r.play.path@ == "ragnarok.exe"@,
            r.play.arguments@.len() == 0,
            r.play.exit_on_success,
            !r.play.skip_error,
            r.setup is None,
            r.web.index_url@.len() == 0,
            r.web.preferred_patch_server is None,
            r.web.patch_servers@.len() == 0,
            r.client.default_grf_name@ == "data.grf"@,
            !r.client.sso_login,
            r.patching.in_place,
            r.patching.check_integrity,
            !r.patching.create_grf,
            r.messages is None,
    {
        PatcherConfig {
            window: WindowConfig::default(),
            play: PlayConfig {
                path: String::from_str("ragnarok.exe"),
                arguments: Vec::new(),
                exit_on_success: true,
                skip_error: false,
            },
            setup: None,
            web: WebConfig {
                index_url: String::new(),
                preferred_patch_server: None,
                patch_servers: Vec::new(),
            },
            client: ClientConfig { default_grf_name: String::from_str("data.grf"), sso_login: false },
            patching: PatchingConfig { in_place: true, check_integrity: true, create_grf: false },
            messages: None,
        }
    }
}

} // verus!
