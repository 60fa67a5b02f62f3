//! The fixed file layout, relative to a home directory supplied by the
//! caller: two alias files and two function files selected by scope, a
//! secrets file, the host document of the plugin list, and the
//! oh-my-zsh plugin directories.

use vstd::prelude::*;

verus! {

/// The alias file of the given scope under `home`.
pub fn get_alias_file_path(home: &str, shared: bool) -> (r: String)
    ensures
        shared ==> r@ == home@ + "/.zsh/aliases.zsh"@,
        !shared ==> r@ == home@ + "/.zsh/aliases.local.zsh"@,
{
    let mut s = home.to_owned();
    if shared {
        s.append("/.zsh/aliases.zsh");
    } else {
        s.append("/.zsh/aliases.local.zsh");
    }
    s
}

/// The secrets file under `home`; its aliases are always local.
pub fn get_secrets_file_path(home: &str) -> (r: String)
    ensures
        r@ == home@ + "/.zshrc.secrets"@,
{
    let mut s = home.to_owned();
    s.append("/.zshrc.secrets");
    s
}

/// The free-form configuration file of the given scope under `home`.
pub fn get_config_file_path(home: &str, shared: bool) -> (r: String)
    ensures
        shared ==> r@ == home@ + "/.zsh/config.zsh"@,
        !shared ==> r@ == home@ + "/.zsh/config.local.zsh"@,
{
    let mut s = home.to_owned();
    if shared {
        s.append("/.zsh/config.zsh");
    } else {
        s.append("/.zsh/config.local.zsh");
    }
    s
}

/// The function file of the given scope under `home`.
pub fn get_function_file_path(home: &str, shared: bool) -> (r: String)
    ensures
        shared ==> r@ == home@ + "/.zsh/functions.zsh"@,
        !shared ==> r@ == home@ + "/.zsh/functions.local.zsh"@,
{
    let mut s = home.to_owned();
    if shared {
        s.append("/.zsh/functions.zsh");
    } else {
        s.append("/.zsh/functions.local.zsh");
    }
    s
}

/// The host document that embeds the plugin-list marker.
pub fn get_zshrc_local_path(home: &str) -> (r: String)
    ensures
        r@ == home@ + "/.zshrc.local"@,
{
    let mut s = home.to_owned();
    s.append("/.zshrc.local");
    s
}

/// The built-in oh-my-zsh plugin directory.
pub fn get_oh_my_zsh_plugins_dir(home: &str) -> (r: String)
    ensures
        r@ == home@ + "/.oh-my-zsh/plugins"@,
{
    let mut s = home.to_owned();
    s.append("/.oh-my-zsh/plugins");
    s
}

/// The custom oh-my-zsh plugin directory.
pub fn get_oh_my_zsh_custom_plugins_dir(home: &str) -> (r: String)
    ensures
        r@ == home@ + "/.oh-my-zsh/custom/plugins"@,
{
    let mut s = home.to_owned();
    s.append("/.oh-my-zsh/custom/plugins");
    s
}

} // verus!
