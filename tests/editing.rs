use goo::prune::remove_log_entries_at;
use goo::settings::{
    is_setting_line, merge_extraintf_value, normalize_key, upsert_extraintf, upsert_setting,
};

#[test]
fn keys_are_trimmed_and_blank_ones_dropped() {
    assert_eq!(normalize_key("  abc ".to_string()).as_deref(), Some("abc"));
    assert_eq!(normalize_key(" \t ".to_string()), None);
    assert_eq!(normalize_key(String::new()), None);
}

#[test]
fn setting_lines_may_be_commented_out() {
    assert!(is_setting_line("  # lua-intf=foo", "lua-intf"));
    assert!(is_setting_line("lua-intf=", "lua-intf"));
    assert!(!is_setting_line("lua-intfx=1", "lua-intf"));
    assert!(!is_setting_line("lua-intf", "lua-intf"));
    assert!(!is_setting_line("## lua-intf=1", "lua-intf"));
}

#[test]
fn extra_interfaces_merge_once() {
    assert_eq!(merge_extraintf_value("extraintf=http, LuaIntf", "luaintf"), "http:LuaIntf");
    assert_eq!(merge_extraintf_value("extraintf=http:,", "luaintf"), "http:luaintf");
    assert_eq!(merge_extraintf_value("extraintf=", "luaintf"), "luaintf");
    assert_eq!(merge_extraintf_value("extraintf", "luaintf"), "luaintf");
}

#[test]
fn settings_are_replaced_or_appended() {
    assert_eq!(
        upsert_setting("a=1\n#lua-intf=old\nb=2", "lua-intf", "goo_logger_intf"),
        "a=1\nlua-intf=goo_logger_intf\nb=2"
    );
    assert_eq!(upsert_setting("", "k", "v"), "k=v");
    assert_eq!(upsert_setting("a=1\n", "k", "v"), "a=1\n\nk=v");
    assert_eq!(upsert_extraintf("extraintf=http", "luaintf"), "extraintf=http:luaintf");
    assert_eq!(upsert_extraintf("x=1", "luaintf"), "x=1\n\nextraintf=luaintf");
}

#[test]
fn log_entries_of_a_title_and_year_are_removed() {
    let content = "a|Heat.1995.mkv\r\nb|Alien.1979.mkv\nc|HEAT.1995.720p.mkv\n\nd|Heat.1986.mkv";
    assert_eq!(
        remove_log_entries_at(content, " heat ", Some(1995), 2026).as_deref(),
        Some("b|Alien.1979.mkv\n\nd|Heat.1986.mkv\n")
    );
    assert_eq!(remove_log_entries_at(content, "Up", None, 2026), None);
    assert_eq!(remove_log_entries_at(content, "  ", Some(1995), 2026), None);
    assert_eq!(
        remove_log_entries_at("x|Up.2009.mkv\n", "UP", Some(2009), 2026).as_deref(),
        Some("")
    );
}
