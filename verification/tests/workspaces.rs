use waybar_widgets::workspaces::{
    build_json_repr, build_workspace_reprs, format_as_icon, get_corresponding_workspaces,
    parse_open_workspaces, WorkspaceReprs,
};

fn ws(name: &str, visible: bool, repr: &str) -> (String, bool, String) {
    (name.to_string(), visible, repr.to_string())
}

#[test]
fn visible_workspace_icon() {
    assert_eq!(format_as_icon("H[firefox]", true), "\u{f111} ");
}

#[test]
fn workspace_icons_by_application() {
    assert_eq!(
        format_as_icon("H[firefox Alacritty]", false),
        "\u{276c}\u{2009}\u{2009}\u{f26b}  \u{ebca} \u{276d}"
    );
    assert_eq!(
        format_as_icon("V[Spotify H[steam_app_1234 Teams]]", false),
        "\u{276c}\u{2009}\u{2009}\u{f1bc}  \u{f0297}  \u{f02bb} \u{276d}"
    );
    assert_eq!(
        format_as_icon("unknown", false),
        "\u{276c}\u{2009}\u{2009}\u{f15fc} \u{276d}"
    );
    assert_eq!(format_as_icon("", false), "\u{276c}\u{2009}\u{2009}\u{f15fc} \u{276d}");
}

#[test]
fn workspace_icons_all_known_applications() {
    assert_eq!(
        format_as_icon("brave-browser libreoffice-calc STEAM wasistlos", false),
        "\u{276c}\u{2009}\u{2009}\u{f26b}  \u{f09f7}  \u{f1b6}  \u{f232} \u{276d}"
    );
}

#[test]
fn listing_parsed() {
    let listing = "1 false H[firefox]\n\n2 true V[a b]\n3 false\n";
    let parsed = parse_open_workspaces(listing).unwrap();
    assert_eq!(
        parsed,
        vec![ws("1", false, "H[firefox]"), ws("2", true, "V[a b]"), ws("3", false, "")]
    );
    assert_eq!(parse_open_workspaces(""), Some(vec![]));
}

#[test]
fn listing_line_without_space_rejected() {
    assert_eq!(parse_open_workspaces("1 false x\nbroken\n"), None);
}

#[test]
fn reprs_padded_and_overridden() {
    let reprs = build_workspace_reprs(vec![
        ws("2", false, "H[firefox]"),
        ws("7", true, "x"),
        ws("2", true, "y"),
    ]);
    assert_eq!(reprs.get("2"), Some("\u{f111} ".to_string()));
    assert_eq!(reprs.get("7"), Some("\u{f111} ".to_string()));
    assert_eq!(reprs.get("1"), Some("\u{eabc}".to_string()));
    assert_eq!(reprs.get("20"), Some("\u{eabc}".to_string()));
    assert_eq!(reprs.get("24"), Some("\u{eabc}".to_string()));
    assert_eq!(reprs.get("5"), None);
    assert_eq!(reprs.get("15"), None);
    assert_eq!(reprs.get("25"), None);
}

#[test]
fn reprs_map_operations() {
    let mut m = WorkspaceReprs::new();
    assert_eq!(m.get("a"), None);
    m.insert("a".to_string(), "1".to_string());
    m.insert("a".to_string(), "2".to_string());
    m.insert_if_absent("a".to_string(), "3".to_string());
    m.insert_if_absent("b".to_string(), "4".to_string());
    assert_eq!(m.get("a"), Some("2".to_string()));
    assert_eq!(m.get("b"), Some("4".to_string()));
}

#[test]
fn screens_and_their_workspaces() {
    assert_eq!(get_corresponding_workspaces("HDMI-A-1"), Some(vec!["1", "2", "3", "4"]));
    assert_eq!(get_corresponding_workspaces("DP-1"), Some(vec!["11", "12", "13", "14"]));
    assert_eq!(get_corresponding_workspaces("DP-3"), Some(vec!["21", "22", "23", "24"]));
    assert_eq!(get_corresponding_workspaces("DP-2"), None);
}

#[test]
fn json_line_for_screen() {
    let open = vec![ws("1", true, "H[firefox]"), ws("3", false, "H[spotify]")];
    assert_eq!(
        build_json_repr("HDMI-A-1", open.clone()),
        Some(
            "{ \"text\": \"\u{f111}  \u{eabc} \u{276c}\u{2009}\u{2009}\u{f1bc} \u{276d} \u{eabc}\", \"tooltip\": \"\", \"class\": \"\" } "
                .to_string()
        )
    );
    assert_eq!(build_json_repr("eDP-1", open), None);
}

#[test]
fn json_line_with_nothing_open() {
    assert_eq!(
        build_json_repr("DP-3", vec![]),
        Some(
            "{ \"text\": \"\u{eabc} \u{eabc} \u{eabc} \u{eabc}\", \"tooltip\": \"\", \"class\": \"\" } "
                .to_string()
        )
    );
}

#[test]
fn workspace_line_is_one_line() {
    let open = parse_open_workspaces("1 false H[a\rb]\n12 true x\n21 false V[firefox  teams]\n").unwrap();
    for screen in ["HDMI-A-1", "DP-1", "DP-3"] {
        let line = build_json_repr(screen, open.clone()).unwrap();
        assert!(!line.contains('\n'));
    }
}

#[test]
fn application_names_ignore_letter_case() {
    for (a, b) in [("Firefox", "FIREFOX"), ("spotify", "SpOtIfY"), ("alacritty", "Alacritty"), ("Teams", "tEAMS"), ("\u{212a}itty", "kitty")] {
        assert_eq!(format_as_icon(a, false), format_as_icon(b, false), "{:?} {:?}", a, b);
    }
}
