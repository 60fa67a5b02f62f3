use zsh_config::config::make_config_content;
use zsh_config::get_alias_file_path;
use zsh_config::get_config_file_path;
use zsh_config::get_function_file_path;
use zsh_config::get_oh_my_zsh_custom_plugins_dir;
use zsh_config::get_oh_my_zsh_plugins_dir;
use zsh_config::get_secrets_file_path;
use zsh_config::get_zshrc_local_path;

#[test]
fn alias_paths_by_scope() {
    assert_eq!(get_alias_file_path("/home/u", true), "/home/u/.zsh/aliases.zsh");
    assert_eq!(get_alias_file_path("/home/u", false), "/home/u/.zsh/aliases.local.zsh");
}

#[test]
fn function_paths_by_scope() {
    assert_eq!(get_function_file_path("/home/u", true), "/home/u/.zsh/functions.zsh");
    assert_eq!(get_function_file_path("/home/u", false), "/home/u/.zsh/functions.local.zsh");
}

#[test]
fn config_paths_by_scope() {
    assert_eq!(get_config_file_path("/home/u", true), "/home/u/.zsh/config.zsh");
    assert_eq!(get_config_file_path("/home/u", false), "/home/u/.zsh/config.local.zsh");
}

#[test]
fn fixed_paths() {
    assert_eq!(get_secrets_file_path("/home/u"), "/home/u/.zshrc.secrets");
    assert_eq!(get_zshrc_local_path("/home/u"), "/home/u/.zshrc.local");
    assert_eq!(get_oh_my_zsh_plugins_dir("/home/u"), "/home/u/.oh-my-zsh/plugins");
    assert_eq!(
        get_oh_my_zsh_custom_plugins_dir("/home/u"),
        "/home/u/.oh-my-zsh/custom/plugins"
    );
}

#[test]
fn config_content_carries_text_and_scope() {
    let c = make_config_content("setopt autocd\n".to_string(), true);
    assert_eq!(c.content, "setopt autocd\n");
    assert!(c.shared);
}
