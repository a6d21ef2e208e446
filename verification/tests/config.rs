use notes::config::{default_toggle_app, Config, Shortcuts};
use notes::paths::with_dev_suffix;
use std::path::PathBuf;

fn text(p: &PathBuf) -> String {
    p.to_str().expect("caminho em Unicode").to_string()
}

// ---------------------------------------------------------------------------
// Separação entre o app instalado e o de desenvolvimento
// ---------------------------------------------------------------------------

#[test]
fn o_app_instalado_usa_a_pasta_sem_sufixo() {
    let dir = PathBuf::from("C:/Users/x/AppData/Roaming/com.cris.notes");
    assert_eq!(PathBuf::from(with_dev_suffix(text(&dir), false)), dir);
}

/// A pasta de dev é irmã da real, nunca uma subpasta.
#[test]
fn o_dev_usa_uma_pasta_irma_com_sufixo() {
    let real = PathBuf::from("C:/Users/x/AppData/Roaming/com.cris.notes");
    let dev = PathBuf::from(with_dev_suffix(text(&real), true));

    assert_eq!(
        dev,
        PathBuf::from("C:/Users/x/AppData/Roaming/com.cris.notes-dev")
    );
    assert_ne!(dev, real);
    assert!(!dev.starts_with(&real));
    assert_eq!(dev.parent(), real.parent());
}

#[test]
fn caminho_sem_ultimo_componente_nao_quebra() {
    let raiz = PathBuf::from("/");
    assert_eq!(PathBuf::from(with_dev_suffix(text(&raiz), true)), raiz);
}

/// Os dois registram o atalho no SO; iguais, um dos dois ficaria sem. Os
/// testes rodam no perfil de desenvolvimento.
#[test]
fn o_atalho_global_padrao_difere_entre_dev_e_instalado() {
    assert_eq!(default_toggle_app(false), "Control+Alt+F");
    assert_ne!(default_toggle_app(true), default_toggle_app(false));
    assert_eq!(Shortcuts::for_build(true).toggle_app, default_toggle_app(true));
}

#[test]
fn default_shortcuts_are_the_installed_builds() {
    assert_eq!(Shortcuts::default().toggle_app, default_toggle_app(false));
    assert_eq!(Shortcuts::for_build(false).toggle_app, "Control+Alt+F");
    assert_eq!(Shortcuts::for_build(true).toggle_app, "Control+Alt+Shift+F");
}

#[test]
fn atalhos_novos_nao_colidem_com_os_existentes() {
    let s = Shortcuts::default();
    let all = [
        &s.toggle_app,
        &s.toggle_view,
        &s.new_note,
        &s.delete_note,
        &s.toggle_pin,
        &s.detach_note,
        &s.close_window,
    ];
    for (i, a) in all.iter().enumerate() {
        for (j, b) in all.iter().enumerate() {
            if i != j {
                assert_ne!(a, b, "atalhos padrão colidindo: {a} e {b}");
            }
        }
    }
}

// ---------------------------------------------------------------------------
// Further cases
// ---------------------------------------------------------------------------

#[test]
fn installed_default_shortcut_is_the_release_one() {
    assert_eq!(Shortcuts::default().toggle_app, "Control+Alt+F");
    assert_eq!(Shortcuts::for_build(true).toggle_app, "Control+Alt+Shift+F");
    assert_eq!(Shortcuts::default().close_window, "Control+W");
}

#[test]
fn development_shortcuts_do_not_collide_either() {
    let s = Shortcuts::for_build(true);
    let all = [
        &s.toggle_app,
        &s.toggle_view,
        &s.new_note,
        &s.delete_note,
        &s.toggle_pin,
        &s.detach_note,
        &s.close_window,
    ];
    for (i, a) in all.iter().enumerate() {
        for (j, b) in all.iter().enumerate() {
            if i != j {
                assert_ne!(a, b);
            }
        }
    }
}

#[test]
fn default_config_values() {
    let cfg = Config::default();
    assert!(cfg.notes_dir.is_empty());
    assert!(cfg.autostart);
    assert_eq!(cfg.trash_retention_days, 30);
    assert!(!cfg.pinned);
    assert!(cfg.detached.is_empty());
    assert_eq!(cfg.window_pos, None);
    assert_eq!(cfg.window_size, None);
}

#[test]
fn missing_notes_dir_falls_back_on_the_default() {
    let mut cfg = Config::default();
    assert!(cfg.notes_dir_unset());
    cfg.resolve_notes_dir("D:/padrao".to_string());
    assert_eq!(cfg.notes_dir, "D:/padrao");

    cfg.notes_dir = "E:/minhas".to_string();
    cfg.resolve_notes_dir("D:/padrao".to_string());
    assert_eq!(cfg.notes_dir, "E:/minhas");
}

#[test]
fn preferences_change_only_their_fields() {
    let mut cfg = Config::default();
    cfg.pinned = true;
    cfg.window_pos = Some((1, 2));
    let mut shortcuts = Shortcuts::default();
    shortcuts.toggle_app = "Control+Alt+N".to_string();
    assert!(cfg.toggle_shortcut_changes(&shortcuts));
    assert!(!cfg.toggle_shortcut_changes(&Shortcuts::default()));
    cfg.apply_preferences(shortcuts, false, 7);
    assert_eq!(cfg.shortcuts.toggle_app, "Control+Alt+N");
    assert!(!cfg.autostart);
    assert_eq!(cfg.trash_retention_days, 7);
    assert!(cfg.pinned);
    assert_eq!(cfg.window_pos, Some((1, 2)));
}

#[test]
fn dev_folder_handles_trailing_separators_and_dots() {
    assert_eq!(with_dev_suffix("C:/a/notes/".to_string(), true), "C:/a/notes-dev");
    assert_eq!(with_dev_suffix("C:\\a\\notes".to_string(), true), "C:\\a\\notes-dev");
    assert_eq!(with_dev_suffix("notes".to_string(), true), "notes-dev");
    assert_eq!(with_dev_suffix("C:".to_string(), true), "C:");
    assert_eq!(with_dev_suffix("a/..".to_string(), true), "a/..");
    assert_eq!(with_dev_suffix("a/b/.".to_string(), true), "a/b-dev");
    assert_eq!(with_dev_suffix(String::new(), true), "");
}

#[test]
fn dev_folder_leaves_a_windows_prefix_alone() {
    let unchanged = [
        r"\\server\share",
        r"\\server\share\",
        r"//server/share",
        r"\\?\C:\",
        r"\\?\C:",
        r"\\.\COM1",
        r"\\?\UNC\server\share",
        r"\\?\UNC\server",
    ];
    for dir in unchanged {
        assert_eq!(with_dev_suffix(dir.to_string(), true), dir, "{dir}");
    }
    assert_eq!(with_dev_suffix(r"\\server\share\notes".to_string(), true), r"\\server\share\notes-dev");
    assert_eq!(with_dev_suffix(r"\\server\share\notes\".to_string(), true), r"\\server\share\notes-dev");
    assert_eq!(with_dev_suffix(r"\\?\C:\notes".to_string(), true), r"\\?\C:\notes-dev");
    assert_eq!(with_dev_suffix(r"\\.\COM1\notes".to_string(), true), r"\\.\COM1\notes-dev");
    assert_eq!(
        with_dev_suffix(r"\\?\UNC\server\share\notes".to_string(), true),
        r"\\?\UNC\server\share\notes-dev"
    );
    assert_eq!(with_dev_suffix(r"\\server".to_string(), true), r"\\server-dev");
}
