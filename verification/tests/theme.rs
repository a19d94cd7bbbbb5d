use omanote::theme::{name_colors, parse_alacritty, parse_colors_toml, theme_name_from};

#[test]
fn reads_colors_toml() {
    let c = parse_colors_toml("mode = \"dark\"\n\naccent = \"#7aa2f7\"\n# comment\nbackground = \"#1a1b26\"\n");
    assert_eq!(c.get("accent"), Some("#7aa2f7"));
    assert_eq!(c.get("background"), Some("#1a1b26"));
    assert_eq!(c.get("# comment"), None);
}

#[test]
fn falls_back_to_alacritty() {
    let c = parse_alacritty("[colors.primary]\nbackground = \"#1a1b26\"\nforeground = \"#a9b1d6\"\n[colors.normal]\nblue = \"#7aa2f7\"\n");
    assert_eq!(c.get("background"), Some("#1a1b26"));
    assert_eq!(c.get("accent"), Some("#7aa2f7"));
}

#[test]
fn strips_inline_comments() {
    let c = parse_colors_toml("accent = \"#36a166\"   # green\ncolor0  = \"#22221b\"  \n");
    assert_eq!(c.get("accent"), Some("#36a166"));
    assert_eq!(c.get("color0"), Some("#22221b"));
}

#[test]
fn unquoted_values_and_later_lines_win() {
    let c = parse_colors_toml("[section]\nx = 1 # one\nx = 2\ny =\nz = \"\"\r\n");
    assert_eq!(c.get("x"), Some("2"));
    assert_eq!(c.get("y"), None);
    assert_eq!(c.get("z"), None);
    assert_eq!(c.pairs().len(), 1);
}

#[test]
fn alacritty_bright_and_selection() {
    let c = parse_alacritty("[colors.bright]\nred = \"#ff0000\"\n[colors.selection]\nbackground = '#333333'\n[colors.normal]\nblue = \"#0000ff\"\n[colors.primary]\naccent_ignored = \"#fff\"\n");
    assert_eq!(c.get("bright_red"), Some("#ff0000"));
    assert_eq!(c.get("selection"), Some("'#333333'"));
    assert_eq!(c.get("accent"), Some("#0000ff"));
    assert_eq!(c.get("accent_ignored"), None);
}

#[test]
fn theme_names() {
    assert_eq!(theme_name_from(Some("  tokyo-night\n"), Some("theme")), "tokyo-night");
    assert_eq!(theme_name_from(Some(" \n"), Some("catppuccin")), "catppuccin");
    assert_eq!(theme_name_from(None, Some("theme")), "omarchy");
    assert_eq!(theme_name_from(None, None), "omarchy");
}

#[test]
fn ansi_colours_get_names() {
    let mut c = parse_colors_toml(
        "accent = \"#36a166\"\nforeground = \"#dcd9d6\"\nbackground = \"#22221b\"\ncolor1 = \"#ba6236\"\ncolor2 = \"#7d9726\"\ncolor4 = \"#123456\"\n",
    );
    name_colors(&mut c);
    assert_eq!(c.get("red"), Some("#ba6236"));
    assert_eq!(c.get("green"), Some("#7d9726"));
    assert_eq!(c.get("blue"), Some("#123456"));
    assert_eq!(c.get("accent"), Some("#36a166"));
    assert_eq!(c.get("cyan"), None);
    let mut d = parse_colors_toml("color4 = \"#0000ff\"\n");
    name_colors(&mut d);
    assert_eq!(d.get("accent"), Some("#0000ff"));
}
