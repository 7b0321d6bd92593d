//! Plain data handed between the library and its callers: vault
//! summary, a full note, and the configuration tables that hold no
//! fractional values.

use vstd::prelude::*;

verus! {

/// Summary of the currently open vault.
pub struct VaultInfo {
    pub path: String,
    pub note_count: usize,
    pub is_open: bool,
}

/// A full note: stored metadata together with its text.
pub struct Note {
    pub path: String,
    pub title: String,
    pub content: String,
    pub word_count: i32,
    pub created_at: Option<String>,
    pub modified_at: Option<String>,
    pub tags: Vec<String>,
}

/// Which vault to reopen.
pub struct VaultConfig {
    pub path: Option<String>,
}

/// Graph view settings.
pub struct GraphConfig {
    pub physics_enabled: bool,
    pub link_distance: u32,
    pub charge_strength: i32,
    pub node_size: u32,
}

/// Panel layout settings.
pub struct UiConfig {
    pub sidebar_width: u32,
    pub panel_width: u32,
    pub show_backlinks: bool,
    pub show_tags: bool,
}

pub fn default_font_family() -> (r: String)
    ensures
        r@ == "JetBrains Mono"@,
{
    String::from_str("JetBrains Mono")
}

pub fn default_font_size() -> (r: u32)
    ensures
        r == 14,
{
    14
}

pub fn default_true() -> (r: bool)
    ensures
        r,
{
    true
}

pub fn default_link_distance() -> (r: u32)
    ensures
        r == 100,
{
    100
}

pub fn default_charge_strength() -> (r: i32)
    ensures
        r == -300,
{
    -300
}

pub fn default_node_size() -> (r: u32)
    ensures
        r == 8,
{
    8
}

pub fn default_sidebar_width() -> (r: u32)
    ensures
        r == 250,
{
    250
}

pub fn default_panel_width() -> (r: u32)
    ensures
        r == 250,
{
    250
}

impl Default for VaultConfig {
    fn default() -> (r: VaultConfig)
        ensures
            r.path is None,
    {
        VaultConfig { path: None }
    }
}

impl Default for GraphConfig {
    fn default() -> (r: GraphConfig)
        ensures
            r.physics_enabled,
            r.link_distance == 100,
            r.charge_strength == -300,
            r.node_size == 8,
    {
        GraphConfig {
            physics_enabled: default_true(),
            link_distance: default_link_distance(),
            charge_strength: default_charge_strength(),
            node_size: default_node_size(),
        }
    }
}

impl Default for UiConfig {
    fn default() -> (r: UiConfig)
        ensures
            r.sidebar_width == 250,
            r.panel_width == 250,
            r.show_backlinks,
            r.show_tags,
    {
        UiConfig {
            sidebar_width: default_sidebar_width(),
            panel_width: default_panel_width(),
            show_backlinks: default_true(),
            show_tags: default_true(),
        }
    }
}

} // verus!
