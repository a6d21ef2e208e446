use notes::config::{Config, DetachedWindow};
use notes::timing::{DragState, GeometryGenerations, Generation, ShortcutAction, ShortcutTiming};
use notes::window::{
    add_detached, any_notes_window_focused, corner_fits, detach_placement, detached_ids,
    is_notes_window, note_window_label, position_is_visible, prune_detached,
    prune_missing_detached, record_geometry, remove_detached, respond_to_window_event,
    restore_plan, saved_geometry, should_hide_after_blur, toggle_visibility, window_note_id,
    AppVisibility, EventResponse, Placement, WindowEventKind,
};

const PRIMARIO: ((i32, i32), (u32, u32)) = ((0, 0), (1920, 1080));
/// Segundo monitor à esquerda: origem negativa, o caso que o Windows produz.
const ESQUERDA: ((i32, i32), (u32, u32)) = ((-1920, 0), (1920, 1080));

#[test]
fn posicao_dentro_do_monitor_e_valida() {
    assert!(corner_fits(PRIMARIO.0, PRIMARIO.1, 0, 0));
    assert!(corner_fits(PRIMARIO.0, PRIMARIO.1, 900, 500));
    assert!(corner_fits(ESQUERDA.0, ESQUERDA.1, -1000, 300));
}

#[test]
fn posicao_de_monitor_que_sumiu_e_recusada() {
    assert!(!corner_fits(PRIMARIO.0, PRIMARIO.1, -1000, 300));
    assert!(!corner_fits(PRIMARIO.0, PRIMARIO.1, 2400, 300));
    assert!(!corner_fits(PRIMARIO.0, PRIMARIO.1, 900, 2000));
}

#[test]
fn canto_colado_na_borda_nao_conta_como_visivel() {
    assert!(corner_fits(PRIMARIO.0, PRIMARIO.1, 1879, 1039));
    assert!(!corner_fits(PRIMARIO.0, PRIMARIO.1, 1880, 1039));
    assert!(!corner_fits(PRIMARIO.0, PRIMARIO.1, 1879, 1040));
}

#[test]
fn folga_pequena_para_fora_e_tolerada() {
    assert!(corner_fits(PRIMARIO.0, PRIMARIO.1, -8, -8));
    assert!(!corner_fits(PRIMARIO.0, PRIMARIO.1, -9, 0));
}

#[test]
fn reconhece_a_principal_e_as_destacadas() {
    assert!(is_notes_window("main"));
    assert!(is_notes_window("note-n123"));
    assert!(!is_notes_window("settings"));
    assert!(!is_notes_window("note")); // sem o hífen, não é uma nota
}

#[test]
fn extrai_o_id_da_nota_do_label_da_janela() {
    assert_eq!(window_note_id("note-n123"), Some("n123"));
    assert_eq!(window_note_id("main"), None);
    assert_eq!(window_note_id("settings"), None);
}

#[test]
fn geometria_da_principal_vem_dos_campos_proprios() {
    let mut cfg = Config::default();
    cfg.window_pos = Some((10, 20));
    cfg.window_size = Some((300, 200));
    cfg.detached.push(DetachedWindow {
        note_id: "n1".into(),
        pos: Some((999, 999)),
        size: None,
    });

    assert_eq!(
        saved_geometry(&cfg, "main"),
        (Some((10, 20)), Some((300, 200)))
    );
}

#[test]
fn geometria_de_destacada_vem_da_entrada_correspondente() {
    let mut cfg = Config::default();
    cfg.detached.push(DetachedWindow {
        note_id: "n1".into(),
        pos: Some((10, 20)),
        size: Some((300, 200)),
    });
    cfg.detached.push(DetachedWindow {
        note_id: "n2".into(),
        pos: None,
        size: None,
    });

    assert_eq!(
        saved_geometry(&cfg, "note-n1"),
        (Some((10, 20)), Some((300, 200)))
    );
    assert_eq!(saved_geometry(&cfg, "note-n2"), (None, None));
    assert_eq!(saved_geometry(&cfg, "note-n3"), (None, None));
}

fn entry(note_id: &str) -> DetachedWindow {
    DetachedWindow {
        note_id: note_id.into(),
        pos: None,
        size: None,
    }
}

fn on_disk(ids: &[&str]) -> Vec<String> {
    ids.iter().map(|id| id.to_string()).collect()
}

#[test]
fn poda_as_notas_destacadas_que_sumiram_do_disco() {
    let salvas = vec![entry("n1"), entry("n2"), entry("n3")];
    let no_disco = on_disk(&["n1", "n3"]);

    let restou = prune_detached(salvas, &no_disco);

    assert_eq!(restou.len(), 2);
    assert_eq!(restou[0].note_id, "n1");
    assert_eq!(restou[1].note_id, "n3");
}

#[test]
fn poda_preserva_a_geometria_de_quem_fica() {
    let salvas = vec![DetachedWindow {
        note_id: "n1".into(),
        pos: Some((10, 20)),
        size: Some((300, 200)),
    }];
    let no_disco = on_disk(&["n1"]);

    let restou = prune_detached(salvas, &no_disco);

    assert_eq!(restou[0].pos, Some((10, 20)));
    assert_eq!(restou[0].size, Some((300, 200)));
}

#[test]
fn sem_nota_nenhuma_no_disco_nao_sobra_composicao() {
    let restou = prune_detached(vec![entry("n1")], &Vec::new());
    assert!(restou.is_empty());
}

// ---------------------------------------------------------------------------
// Further cases
// ---------------------------------------------------------------------------

#[test]
fn note_label_roundtrip() {
    let label = note_window_label("n42");
    assert_eq!(label, "note-n42");
    assert_eq!(window_note_id(&label), Some("n42"));
    assert!(is_notes_window(&label));
}

#[test]
fn visible_on_any_monitor() {
    let monitors = vec![PRIMARIO, ESQUERDA];
    assert!(position_is_visible(&monitors, -1000, 300));
    assert!(position_is_visible(&monitors, 100, 100));
    assert!(!position_is_visible(&monitors, 3000, 300));
    assert!(!position_is_visible(&Vec::new(), 0, 0));
}

#[test]
fn monitors_at_the_edge_of_the_coordinate_range() {
    let far = ((i32::MAX - 100, i32::MIN), (1920, 1080));
    let monitors = vec![far, PRIMARIO];
    assert!(position_is_visible(&monitors, i32::MAX - 50, i32::MIN));
    assert!(position_is_visible(&monitors, 10, 10));
    assert!(!position_is_visible(&monitors, i32::MIN, 10));

    let mut cfg = Config::default();
    let plan = restore_plan(&cfg, "main", &monitors);
    assert_eq!(plan.place, Placement::Center);
    cfg.window_pos = Some((i32::MAX - 50, i32::MIN + 8));
    let plan = restore_plan(&cfg, "main", &monitors);
    assert_eq!(plan.place, Placement::At(i32::MAX - 50, i32::MIN + 8));
}

#[test]
fn restore_centers_a_position_that_no_monitor_shows() {
    let mut cfg = Config::default();
    cfg.window_pos = Some((-1000, 300));
    cfg.window_size = Some((640, 480));
    let only_primary = vec![PRIMARIO];
    let plan = restore_plan(&cfg, "main", &only_primary);
    assert_eq!(plan.size, Some((640, 480)));
    assert_eq!(plan.place, Placement::Center);

    let both = vec![PRIMARIO, ESQUERDA];
    let plan = restore_plan(&cfg, "main", &both);
    assert_eq!(plan.place, Placement::At(-1000, 300));

    let plan = restore_plan(&cfg, "note-n9", &both);
    assert_eq!(plan.size, None);
    assert_eq!(plan.place, Placement::Center);
}

#[test]
fn recorded_geometry_is_read_back() {
    let mut cfg = Config::default();
    cfg.detached.push(entry("n1"));
    cfg.detached.push(entry("n2"));

    assert!(record_geometry(&mut cfg, "note-n2", (5, 6), (300, 200)));
    assert_eq!(saved_geometry(&cfg, "note-n2"), (Some((5, 6)), Some((300, 200))));
    assert_eq!(saved_geometry(&cfg, "note-n1"), (None, None));
    assert_eq!(saved_geometry(&cfg, "main"), (None, None));
    // Same geometry again: nothing to write.
    assert!(!record_geometry(&mut cfg, "note-n2", (5, 6), (300, 200)));
    // A note that is no longer detached has no entry to update.
    assert!(!record_geometry(&mut cfg, "note-n7", (1, 1), (1, 1)));
    assert_eq!(cfg.detached.len(), 2);

    assert!(record_geometry(&mut cfg, "main", (120, -40), (640, 480)));
    assert_eq!(cfg.window_pos, Some((120, -40)));
    assert_eq!(cfg.window_size, Some((640, 480)));
    assert_eq!(saved_geometry(&cfg, "note-n2"), (Some((5, 6)), Some((300, 200))));
}

#[test]
fn detaching_twice_keeps_one_entry() {
    let mut cfg = Config::default();
    assert!(add_detached(&mut cfg, "n1"));
    assert!(!add_detached(&mut cfg, "n1"));
    assert!(add_detached(&mut cfg, "n2"));
    let ids = detached_ids(&cfg);
    assert_eq!(ids, vec!["n1".to_string(), "n2".to_string()]);
    assert_eq!(cfg.detached[0].pos, None);

    remove_detached(&mut cfg, "n1");
    assert_eq!(detached_ids(&cfg), vec!["n2".to_string()]);
    remove_detached(&mut cfg, "n404");
    assert_eq!(detached_ids(&cfg), vec!["n2".to_string()]);
}

#[test]
fn start_up_prunes_the_composition() {
    let mut cfg = Config::default();
    cfg.detached = vec![entry("n1"), entry("n2")];
    assert!(prune_missing_detached(&mut cfg, &on_disk(&["n2"])));
    assert_eq!(detached_ids(&cfg), vec!["n2".to_string()]);
    assert!(!prune_missing_detached(&mut cfg, &on_disk(&["n2"])));
}

#[test]
fn detached_window_placement() {
    assert_eq!(
        detach_placement(Some((7, 8)), Some(100), Some(100), Some((200, 100))),
        Some(Placement::At(7, 8))
    );
    assert_eq!(
        detach_placement(None, Some(100), Some(100), Some((200, 101))),
        Some(Placement::At(0, 50))
    );
    assert_eq!(detach_placement(None, Some(100), Some(100), None), None);
    assert_eq!(detach_placement(None, None, Some(100), None), Some(Placement::Center));
    // A width that does not fit an i32 is read as a negative one.
    assert_eq!(
        detach_placement(None, Some(0), Some(0), Some((u32::MAX, 2))),
        Some(Placement::At(0, -1))
    );
}

#[test]
fn focus_inside_the_app_never_hides_it() {
    let mut generation = Generation::new();
    let first = generation.advance();
    let second = generation.advance();
    let focus_on_detached = vec![("main".to_string(), false), ("note-n1".to_string(), true)];
    let focus_elsewhere = vec![("main".to_string(), false), ("settings".to_string(), true)];

    assert!(!should_hide_after_blur(&generation, second, &focus_on_detached, false));
    assert!(should_hide_after_blur(&generation, second, &focus_elsewhere, false));
    // Only the last scheduled check acts.
    assert!(!should_hide_after_blur(&generation, first, &focus_elsewhere, false));
    // Pinned: losing the focus does not hide.
    assert!(!should_hide_after_blur(&generation, second, &focus_elsewhere, true));
}

#[test]
fn toggle_hides_a_focused_app_and_shows_it_otherwise() {
    let focused = vec![("note-n1".to_string(), true)];
    let unfocused = vec![("main".to_string(), false)];
    assert!(any_notes_window_focused(&focused));
    assert_eq!(toggle_visibility(true, &focused), Some(AppVisibility::Hide));
    assert_eq!(toggle_visibility(true, &unfocused), Some(AppVisibility::Show));
    assert_eq!(toggle_visibility(false, &unfocused), None);
}

#[test]
fn window_events() {
    assert_eq!(
        respond_to_window_event("main", WindowEventKind::FocusLost, false),
        EventResponse::ScheduleHideCheck
    );
    assert_eq!(
        respond_to_window_event("main", WindowEventKind::FocusLost, true),
        EventResponse::Ignore
    );
    assert_eq!(
        respond_to_window_event("note-n1", WindowEventKind::MovedOrResized, true),
        EventResponse::ScheduleGeometrySave { renew_drag: true }
    );
    assert_eq!(
        respond_to_window_event("note-n1", WindowEventKind::CloseRequested, false),
        EventResponse::CloseDetachedNote
    );
    assert_eq!(
        respond_to_window_event("main", WindowEventKind::CloseRequested, false),
        EventResponse::HideAppInstead
    );
}

#[test]
fn drag_grace_is_per_window() {
    let mut drags = DragState::new();
    assert!(!drags.is_dragging("main", 0));
    drags.mark_drag("main", 1_000_000_000);
    assert!(drags.is_dragging("main", 1_000_000_000 + 699_999_999));
    assert!(!drags.is_dragging("main", 1_000_000_000 + 700_000_000));
    assert!(!drags.is_dragging("note-n1", 1_000_000_001));
    // A clock reading before the mark counts as no time elapsed.
    assert!(drags.is_dragging("main", 0));
}

#[test]
fn geometry_saves_are_scheduled_per_window() {
    let mut gens = GeometryGenerations::new();
    let main_first = gens.advance("main");
    let note = gens.advance("note-n1");
    assert!(gens.is_current("main", main_first));
    assert!(gens.is_current("note-n1", note));
    let main_second = gens.advance("main");
    assert!(!gens.is_current("main", main_first));
    assert!(gens.is_current("main", main_second));
    assert!(gens.is_current("note-n1", note));
    assert!(gens.can_advance("main"));
}

#[test]
fn double_press_recenters() {
    let mut timing = ShortcutTiming::new();
    assert_eq!(timing.press(1_000_000_000), ShortcutAction::Toggle);
    assert_eq!(timing.press(1_000_000_000 + 349_999_999), ShortcutAction::Recenter);
    assert_eq!(timing.press(2_000_000_000), ShortcutAction::Toggle);
}

#[test]
fn triple_press_resets_main_size() {
    let mut timing = ShortcutTiming::new();
    assert_eq!(timing.press(1_000_000_000), ShortcutAction::Toggle);
    assert_eq!(timing.press(1_100_000_000), ShortcutAction::Recenter);
    assert_eq!(timing.press(1_200_000_000), ShortcutAction::Reset);
    assert_eq!(timing.press(1_300_000_000), ShortcutAction::Reset);
    assert_eq!(timing.press(2_000_000_000), ShortcutAction::Toggle);
    assert_eq!(timing.press(2_100_000_000), ShortcutAction::Recenter);
}
