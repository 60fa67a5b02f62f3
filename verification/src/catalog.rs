//! The static plugin catalog: a fixed, read-only mapping from known
//! plugin names to a description, a repository reference and an install
//! hint. Unknown names have no metadata, which is not an error.

use vstd::prelude::*;

verus! {

/// The metadata of a known plugin name, or `None` for a name outside
/// the catalog. Coverage is intentionally partial.
pub open spec fn catalog_info(name: Seq<char>) -> Option<(Seq<char>, Seq<char>, Seq<char>)> {
    if name == "git"@ {
        Some(
            (
                "Git aliases and functions"@,
                "https://github.com/ohmyzsh/ohmyzsh/tree/master/plugins/git"@,
                "Built-in Oh-My-Zsh plugin - no installation required"@,
            ),
        )
    } else if name == "zsh-autosuggestions"@ {
        Some(
            (
                "Fish-like autosuggestions for zsh"@,
                "https://github.com/zsh-users/zsh-autosuggestions"@,
                "cd ~/.oh-my-zsh/custom/plugins\ngit clone https://github.com/zsh-users/zsh-autosuggestions"@,
            ),
        )
    } else if name == "zsh-syntax-highlighting"@ {
        Some(
            (
                "Fish shell like syntax highlighting for Zsh"@,
                "https://github.com/zsh-users/zsh-syntax-highlighting"@,
                "cd ~/.oh-my-zsh/custom/plugins\ngit clone https://github.com/zsh-users/zsh-syntax-highlighting.git"@,
            ),
        )
    } else if name == "alias-tips"@ {
        Some(
            (
                "Help remember your aliases by showing tips when you type a command"@,
                "https://github.com/djui/alias-tips"@,
                "cd ~/.oh-my-zsh/custom/plugins\ngit clone https://github.com/djui/alias-tips.git"@,
            ),
        )
    } else if name == "fzf"@ {
        Some(
            (
                "Fuzzy finder integration for command history and file search"@,
                "https://github.com/ohmyzsh/ohmyzsh/tree/master/plugins/fzf"@,
                "Built-in Oh-My-Zsh plugin - requires fzf to be installed:\nsudo apt install fzf  # Ubuntu/Debian\nbrew install fzf      # macOS"@,
            ),
        )
    } else if name == "fzf-tab"@ {
        Some(
            (
                "Replace zsh tab completion with fzf"@,
                "https://github.com/Aloxaf/fzf-tab"@,
                "cd ~/.oh-my-zsh/custom/plugins\ngit clone https://github.com/Aloxaf/fzf-tab"@,
            ),
        )
    } else if name == "docker"@ {
        Some(
            (
                "Docker completion and aliases"@,
                "https://github.com/ohmyzsh/ohmyzsh/tree/master/plugins/docker"@,
                "Built-in Oh-My-Zsh plugin - no installation required"@,
            ),
        )
    } else if name == "docker-compose"@ {
        Some(
            (
                "Docker-compose completion"@,
                "https://github.com/ohmyzsh/ohmyzsh/tree/master/plugins/docker-compose"@,
                "Built-in Oh-My-Zsh plugin - no installation required"@,
            ),
        )
    } else if name == "kubectl"@ {
        Some(
            (
                "Kubectl completion and aliases"@,
                "https://github.com/ohmyzsh/ohmyzsh/tree/master/plugins/kubectl"@,
                "Built-in Oh-My-Zsh plugin - no installation required"@,
            ),
        )
    } else if name == "npm"@ {
        Some(
            (
                "NPM completion and aliases"@,
                "https://github.com/ohmyzsh/ohmyzsh/tree/master/plugins/npm"@,
                "Built-in Oh-My-Zsh plugin - no installation required"@,
            ),
        )
    } else if name == "node"@ {
        Some(
            (
                "Node.js completion"@,
                "https://github.com/ohmyzsh/ohmyzsh/tree/master/plugins/node"@,
                "Built-in Oh-My-Zsh plugin - no installation required"@,
            ),
        )
    } else if name == "rust"@ {
        Some(
            (
                "Rust and Cargo completion"@,
                "https://github.com/ohmyzsh/ohmyzsh/tree/master/plugins/rust"@,
                "Built-in Oh-My-Zsh plugin - no installation required"@,
            ),
        )
    } else if name == "python"@ {
        Some(
            (
                "Python completion and utilities"@,
                "https://github.com/ohmyzsh/ohmyzsh/tree/master/plugins/python"@,
                "Built-in Oh-My-Zsh plugin - no installation required"@,
            ),
        )
    } else if name == "sudo"@ {
        Some(
            (
                "Easily prefix your commands with sudo by pressing ESC twice"@,
                "https://github.com/ohmyzsh/ohmyzsh/tree/master/plugins/sudo"@,
                "Built-in Oh-My-Zsh plugin - no installation required"@,
            ),
        )
    } else if name == "web-search"@ {
        Some(
            (
                "Search the web from your terminal"@,
                "https://github.com/ohmyzsh/ohmyzsh/tree/master/plugins/web-search"@,
                "Built-in Oh-My-Zsh plugin - no installation required"@,
            ),
        )
    } else if name == "history"@ {
        Some(
            (
                "Enhanced history utilities"@,
                "https://github.com/ohmyzsh/ohmyzsh/tree/master/plugins/history"@,
                "Built-in Oh-My-Zsh plugin - no installation required"@,
            ),
        )
    } else if name == "colored-man-pages"@ {
        Some(
            (
                "Colorize man pages"@,
                "https://github.com/ohmyzsh/ohmyzsh/tree/master/plugins/colored-man-pages"@,
                "Built-in Oh-My-Zsh plugin - no installation required"@,
            ),
        )
    } else if name == "command-not-found"@ {
        Some(
            (
                "Suggest package to install when command not found"@,
                "https://github.com/ohmyzsh/ohmyzsh/tree/master/plugins/command-not-found"@,
                "Built-in Oh-My-Zsh plugin - no installation required"@,
            ),
        )
    } else {
        None
    }
}

/// Looks a plugin name up in the static catalog: description, repository
/// reference and install hint, or three absent fields for an unknown
/// name.
pub fn get_plugin_info(name: &str) -> (r: (Option<String>, Option<String>, Option<String>))
    ensures
        match catalog_info(name@) {
            Some(t) => r.0 is Some && r.0->Some_0@ == t.0 && r.1 is Some && r.1->Some_0@ == t.1 && r.2
                is Some && r.2->Some_0@ == t.2,
            None => r.0 is None && r.1 is None && r.2 is None,
        },
{
    if crate::text::str_eq(name, "git") {
        (
            Some("Git aliases and functions".to_owned()),
            Some("https://github.com/ohmyzsh/ohmyzsh/tree/master/plugins/git".to_owned()),
            Some("Built-in Oh-My-Zsh plugin - no installation required".to_owned()),
        )
    } else if crate::text::str_eq(name, "zsh-autosuggestions") {
        (
            Some("Fish-like autosuggestions for zsh".to_owned()),
            Some("https://github.com/zsh-users/zsh-autosuggestions".to_owned()),
            Some(
                "cd ~/.oh-my-zsh/custom/plugins\ngit clone https://github.com/zsh-users/zsh-autosuggestions".to_owned(),
            ),
        )
    } else if crate::text::str_eq(name, "zsh-syntax-highlighting") {
        (
            Some("Fish shell like syntax highlighting for Zsh".to_owned()),
            Some("https://github.com/zsh-users/zsh-syntax-highlighting".to_owned()),
            Some(
                "cd ~/.oh-my-zsh/custom/plugins\ngit clone https://github.com/zsh-users/zsh-syntax-highlighting.git".to_owned(),
            ),
        )
    } else if crate::text::str_eq(name, "alias-tips") {
        (
            Some(
                "Help remember your aliases by showing tips when you type a command".to_owned(),
            ),
            Some("https://github.com/djui/alias-tips".to_owned()),
            Some(
                "cd ~/.oh-my-zsh/custom/plugins\ngit clone https://github.com/djui/alias-tips.git".to_owned(),
            ),
        )
    } else if crate::text::str_eq(name, "fzf") {
        (
            Some("Fuzzy finder integration for command history and file search".to_owned()),
            Some("https://github.com/ohmyzsh/ohmyzsh/tree/master/plugins/fzf".to_owned()),
            Some(
                "Built-in Oh-My-Zsh plugin - requires fzf to be installed:\nsudo apt install fzf  # Ubuntu/Debian\nbrew install fzf      # macOS".to_owned(),
            ),
        )
    } else if crate::text::str_eq(name, "fzf-tab") {
        (
            Some("Replace zsh tab completion with fzf".to_owned()),
            Some("https://github.com/Aloxaf/fzf-tab".to_owned()),
            Some(
                "cd ~/.oh-my-zsh/custom/plugins\ngit clone https://github.com/Aloxaf/fzf-tab".to_owned(),
            ),
        )
    } else if crate::text::str_eq(name, "docker") {
        (
            Some("Docker completion and aliases".to_owned()),
            Some("https://github.com/ohmyzsh/ohmyzsh/tree/master/plugins/docker".to_owned()),
            Some("Built-in Oh-My-Zsh plugin - no installation required".to_owned()),
        )
    } else if crate::text::str_eq(name, "docker-compose") {
        (
            Some("Docker-compose completion".to_owned()),
            Some(
                "https://github.com/ohmyzsh/ohmyzsh/tree/master/plugins/docker-compose".to_owned(),
            ),
            Some("Built-in Oh-My-Zsh plugin - no installation required".to_owned()),
        )
    } else if crate::text::str_eq(name, "kubectl") {
        (
            Some("Kubectl completion and aliases".to_owned()),
            Some("https://github.com/ohmyzsh/ohmyzsh/tree/master/plugins/kubectl".to_owned()),
            Some("Built-in Oh-My-Zsh plugin - no installation required".to_owned()),
        )
    } else if crate::text::str_eq(name, "npm") {
        (
            Some("NPM completion and aliases".to_owned()),
            Some("https://github.com/ohmyzsh/ohmyzsh/tree/master/plugins/npm".to_owned()),
            Some("Built-in Oh-My-Zsh plugin - no installation required".to_owned()),
        )
    } else if crate::text::str_eq(name, "node") {
        (
            Some("Node.js completion".to_owned()),
            Some("https://github.com/ohmyzsh/ohmyzsh/tree/master/plugins/node".to_owned()),
            Some("Built-in Oh-My-Zsh plugin - no installation required".to_owned()),
        )
    } else if crate::text::str_eq(name, "rust") {
        (
            Some("Rust and Cargo completion".to_owned()),
            Some("https://github.com/ohmyzsh/ohmyzsh/tree/master/plugins/rust".to_owned()),
            Some("Built-in Oh-My-Zsh plugin - no installation required".to_owned()),
        )
    } else if crate::text::str_eq(name, "python") {
        (
            Some("Python completion and utilities".to_owned()),
            Some("https://github.com/ohmyzsh/ohmyzsh/tree/master/plugins/python".to_owned()),
            Some("Built-in Oh-My-Zsh plugin - no installation required".to_owned()),
        )
    } else if crate::text::str_eq(name, "sudo") {
        (
            Some("Easily prefix your commands with sudo by pressing ESC twice".to_owned()),
            Some("https://github.com/ohmyzsh/ohmyzsh/tree/master/plugins/sudo".to_owned()),
            Some("Built-in Oh-My-Zsh plugin - no installation required".to_owned()),
        )
    } else if crate::text::str_eq(name, "web-search") {
        (
            Some("Search the web from your terminal".to_owned()),
            Some("https://github.com/ohmyzsh/ohmyzsh/tree/master/plugins/web-search".to_owned()),
            Some("Built-in Oh-My-Zsh plugin - no installation required".to_owned()),
        )
    } else if crate::text::str_eq(name, "history") {
        (
            Some("Enhanced history utilities".to_owned()),
            Some("https://github.com/ohmyzsh/ohmyzsh/tree/master/plugins/history".to_owned()),
            Some("Built-in Oh-My-Zsh plugin - no installation required".to_owned()),
        )
    } else if crate::text::str_eq(name, "colored-man-pages") {
        (
            Some("Colorize man pages".to_owned()),
            Some(
                "https://github.com/ohmyzsh/ohmyzsh/tree/master/plugins/colored-man-pages".to_owned(),
            ),
            Some("Built-in Oh-My-Zsh plugin - no installation required".to_owned()),
        )
    } else if crate::text::str_eq(name, "command-not-found") {
        (
            Some("Suggest package to install when command not found".to_owned()),
            Some(
                "https://github.com/ohmyzsh/ohmyzsh/tree/master/plugins/command-not-found".to_owned(),
            ),
            Some("Built-in Oh-My-Zsh plugin - no installation required".to_owned()),
        )
    } else {
        (None, None, None)
    }
}

} // verus!
