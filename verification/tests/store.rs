use notes::names::{
    note_file_name, parse_u128_text, stamp_of_name, trash_file_name, validate_id, NoteError,
};
use notes::store::{
    deleted_at, expired_indices, find_in_trash, move_plan, next_note_id, note_id_of,
    purge_cutoff, restore_plan, sort_newest_first, trash_count, trash_indices, DirEntry, Note,
    DAY_MILLIS,
};

fn file(name: &str, modified: u128) -> DirEntry {
    DirEntry {
        name: name.to_string(),
        unicode: true,
        is_file: true,
        modified,
    }
}

fn folder(name: &str) -> DirEntry {
    DirEntry {
        name: name.to_string(),
        unicode: true,
        is_file: false,
        modified: 0,
    }
}

fn note(id: &str, modified: u128) -> Note {
    Note {
        id: id.to_string(),
        content: String::new(),
        modified,
    }
}

#[test]
fn id_fora_do_alfabeto_e_recusado() {
    for id in ["../evil", "sub/nota", "..", "nota.md", "a b", "", "n1\\x"] {
        assert!(validate_id(id).is_err(), "aceitou o id {id:?}");
        assert!(note_file_name(id).is_err(), "aceitou o id {id:?}");
        assert!(trash_file_name(id, 1).is_err(), "aceitou o id {id:?}");
    }
    assert!(validate_id(&"n".repeat(65)).is_err());
    assert!(validate_id(&"n".repeat(64)).is_ok());
    assert!(validate_id("n1700000000000-2").is_ok());
    assert!(validate_id("a_B-9").is_ok());
    match validate_id("a b") {
        Err(NoteError::InvalidId(id)) => assert_eq!(id, "a b"),
        other => panic!("esperado InvalidId, veio {other:?}"),
    }
}

#[test]
fn file_names_of_notes_and_trash() {
    assert_eq!(note_file_name("n1").unwrap(), "n1.md");
    assert_eq!(trash_file_name("n1", 123).unwrap(), "123__n1.md");
    assert_eq!(trash_file_name("n1", 0).unwrap(), "0__n1.md");
    assert_eq!(
        trash_file_name("n1", u128::MAX).unwrap(),
        format!("{}__n1.md", u128::MAX)
    );
}

#[test]
fn stamps_are_read_back() {
    for t in [0u128, 7, 1_700_000_000_123, u128::MAX] {
        let name = trash_file_name("a__b", t).unwrap();
        assert_eq!(stamp_of_name(&name), Some(t));
    }
    assert_eq!(stamp_of_name("n123.md"), None);
    assert_eq!(stamp_of_name("x__n1.md"), None);
    assert_eq!(stamp_of_name("+5__n1.md"), Some(5));
    assert_eq!(stamp_of_name("__n1.md"), None);
}

#[test]
fn parse_like_str_parse() {
    for text in ["", "+", "-1", "1a", " 1", "340282366920938463463374607431768211456"] {
        assert_eq!(parse_u128_text(text), text.parse::<u128>().ok(), "{text:?}");
    }
    for text in ["0", "007", "+42", "340282366920938463463374607431768211455"] {
        assert_eq!(parse_u128_text(text), text.parse::<u128>().ok(), "{text:?}");
    }
}

#[test]
fn create_nao_repete_id() {
    let mut taken: Vec<String> = Vec::new();
    let mut seen = std::collections::HashSet::new();
    for _ in 0..50 {
        let id = next_note_id(1_700_000_000_000, &taken);
        assert!(validate_id(&id).is_ok());
        assert!(seen.insert(id.clone()), "id repetido: {id}");
        taken.push(note_file_name(&id).unwrap());
    }
    let listed: Vec<String> = taken
        .iter()
        .filter_map(|name| note_id_of(&file(name, 0)))
        .collect();
    assert_eq!(listed.len(), 50);
    assert_eq!(next_note_id(5, &Vec::new()), "n5");
    let taken = vec!["n5.md".to_string(), "n5-1.md".to_string(), "outro".to_string()];
    assert_eq!(next_note_id(5, &taken), "n5-2");
}

#[test]
fn taken_names_ignore_letter_case() {
    assert_eq!(next_note_id(5, &vec!["N5.md".to_string()]), "n5-1");
    assert_eq!(next_note_id(5, &vec!["n5.MD".to_string(), "N5-1.Md".to_string()]), "n5-2");
    assert_eq!(next_note_id(5, &vec!["n5.mdx".to_string(), "m5.md".to_string()]), "n5");
}

#[test]
fn list_ignora_o_que_nao_e_nota() {
    assert_eq!(note_id_of(&file("n1.md", 1)), Some("n1".to_string()));
    assert_eq!(note_id_of(&file("leia-me.txt", 1)), None);
    assert_eq!(note_id_of(&file("nota com espaço.md", 1)), None);
    assert_eq!(note_id_of(&folder("sub.md")), None);
    assert_eq!(note_id_of(&file(".md", 1)), None);
    let mut lossy = file("n1.md", 1);
    lossy.unicode = false;
    assert_eq!(note_id_of(&lossy), None);
}

#[test]
fn list_traz_a_mais_recente_primeiro() {
    let sorted = sort_newest_first(vec![
        note("antiga", 10),
        note("nova", 30),
        note("empate-a", 20),
        note("empate-b", 20),
    ]);
    let ids: Vec<String> = sorted.into_iter().map(|n| n.id).collect();
    assert_eq!(ids, vec!["nova", "empate-a", "empate-b", "antiga"]);
    assert!(sort_newest_first(Vec::new()).is_empty());
}

#[test]
fn delete_move_para_a_lixeira_e_restore_traz_de_volta() {
    let trashed = trash_file_name("n7", 1_000).unwrap();
    let trash = vec![file("1__n8.md", 0), file(&trashed, 0)];
    assert_eq!(trash_count(&trash), 2);
    let (index, target) = restore_plan("n7", &trash).unwrap();
    assert_eq!(index, 1);
    assert_eq!(target, "n7.md");
}

#[test]
fn restore_aceita_o_formato_antigo_sem_carimbo() {
    let trash = vec![file("n123.md", 0)];
    assert_eq!(find_in_trash("n123", &trash).unwrap(), Some(0));
    let (index, target) = restore_plan("n123", &trash).unwrap();
    assert_eq!((index, target.as_str()), (0, "n123.md"));
}

#[test]
fn delete_e_restore_de_nota_ausente() {
    let trash = vec![file("5__n1.md", 0)];
    match restore_plan("n404", &trash) {
        Err(NoteError::NotInTrash(id)) => assert_eq!(id, "n404"),
        other => panic!("esperado NotInTrash, veio {other:?}"),
    }
    match restore_plan("../x", &trash) {
        Err(NoteError::InvalidId(_)) => {}
        other => panic!("esperado InvalidId, veio {other:?}"),
    }
    assert_eq!(find_in_trash("n404", &Vec::new()).unwrap(), None);
    let empty_folder: Vec<DirEntry> = Vec::new();
    assert!(empty_folder.iter().filter_map(note_id_of).next().is_none());
}

/// The stamp in the name decides, not the modification time.
#[test]
fn purge_trash_usa_o_carimbo_do_nome_e_nao_o_mtime() {
    let now: u128 = 10 * DAY_MILLIS;
    let old = format!("{}__nvelha.md", now - 3 * DAY_MILLIS);
    let recent = format!("{}__nrecente.md", now - 3_600_000);
    let trash = vec![file(&old, now), file(&recent, now)];
    let cutoff = purge_cutoff(now, 1).unwrap();
    assert_eq!(cutoff, 9 * DAY_MILLIS);
    assert_eq!(expired_indices(&trash, cutoff), vec![0]);
}

#[test]
fn unstamped_trash_falls_back_on_the_modification_time() {
    let trash = vec![file("n1.md", 5), file("n2.md", 50)];
    assert_eq!(deleted_at(&trash[0]), 5);
    assert_eq!(expired_indices(&trash, 10), vec![0]);
    let mut lossy = file("1__n3.md", 99);
    lossy.unicode = false;
    assert_eq!(deleted_at(&lossy), 99);
}

#[test]
fn purge_trash_com_retencao_zero_nunca_apaga() {
    assert_eq!(purge_cutoff(u128::MAX, 0), None);
    let trash = vec![file("1__nantiga.md", 0)];
    assert_eq!(trash_count(&trash), 1);
    assert_eq!(purge_cutoff(1_000, 1), Some(0));
    assert_eq!(
        purge_cutoff(40 * DAY_MILLIS, 30),
        Some(10 * DAY_MILLIS)
    );
}

#[test]
fn empty_trash_esvazia_e_nao_toca_nas_notas_ativas() {
    let viva = next_note_id(1, &Vec::new());
    let folder_listing = vec![file(&note_file_name(&viva).unwrap(), 1), folder(".trash")];
    let trash = vec![file(&trash_file_name("n2", 2).unwrap(), 2)];
    assert_eq!(trash_indices(&trash), vec![0]);
    assert_eq!(trash_count(&trash), 1);
    let ids: Vec<String> = folder_listing.iter().filter_map(note_id_of).collect();
    assert_eq!(ids, vec![viva]);

    let mixed = vec![file("1__a.md", 0), folder("x.md"), file("leia.txt", 0), file("b.md", 0)];
    assert_eq!(trash_count(&mixed), 2);
    assert_eq!(trash_indices(&mixed), vec![0, 3]);
}

#[test]
fn move_all_leva_as_notas_e_deixa_a_lixeira_para_tras() {
    let origem = vec![file("n1.md", 0), folder(".trash")];
    assert_eq!(move_plan(&origem, &vec![false, false]), vec![0]);
}

#[test]
fn move_all_preserva_o_arquivo_do_destino_em_caso_de_conflito() {
    let entries = vec![file("n1.md", 0), folder(".trash"), file("n2.md", 0), file("x.txt", 0)];
    let target_exists = vec![true, false, false, false];
    assert_eq!(move_plan(&entries, &target_exists), vec![2]);
}
