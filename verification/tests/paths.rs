use shiori::config::{AppEnv, Config, ShimConfig, ShimEnv};
use shiori::paths::{file_extension, file_stem, pdf_name, safe_relative_path, PathError, PdfFile};
use shiori::routes::{
    deck_field, is_wanted, material_field, missing, path_of, should_refresh, upload_name,
    DeckField, MaterialField, MaterialUpload, PageKind, UploadOutcome,
};

#[test]
fn accepts_normal_relative_paths() {
    assert_eq!(safe_relative_path("media/image.png").unwrap(), "media/image.png");
    assert_eq!(
        safe_relative_path(r"nested\cards\sound.mp3").unwrap(),
        "nested/cards/sound.mp3"
    );
}

#[test]
fn rejects_escape_attempts() {
    assert!(safe_relative_path("../secret").is_err());
    assert!(safe_relative_path("/absolute/path").is_err());
    assert!(safe_relative_path(r"C:\windows\system32").is_err());
    assert!(safe_relative_path("./").is_err());
}

#[test]
fn paths_lose_what_leads_nowhere() {
    assert_eq!(safe_relative_path("./a//b/./c/").unwrap(), "a/b/c");
    assert_eq!(safe_relative_path("0").unwrap(), "0");
}

#[test]
fn path_errors_say_what_is_wrong() {
    let error = safe_relative_path("a/../b").unwrap_err();
    assert!(matches!(error, PathError::Unsafe));
    assert_eq!(error.message("a/../b"), "unsafe relative path: a/../b");
    let empty = safe_relative_path("").unwrap_err();
    assert!(matches!(empty, PathError::Empty));
    assert_eq!(empty.message(""), "empty relative path");
}

#[test]
fn names_have_stems_and_extensions() {
    assert_eq!(file_extension("upload-a.b.txt"), Some("txt".to_string()));
    assert_eq!(file_stem("upload-a.b.txt"), "upload-a.b");
    assert_eq!(file_extension(".bashrc"), None);
    assert_eq!(file_stem(".bashrc"), ".bashrc");
    assert_eq!(file_extension("upload-"), None);
    assert_eq!(file_extension(".."), None);
    assert_eq!(file_extension(""), None);
    assert_eq!(file_stem(".."), "..");
    assert_eq!(file_extension("a."), Some(String::new()));
    let inside = |name: &str| match pdf_name(name) {
        PdfFile::Inside(pdf) => pdf,
        _ => panic!("{name}"),
    };
    assert_eq!(inside("upload-notes.docx"), "upload-notes.pdf");
    assert_eq!(inside("upload-v1.2.docx"), "upload-v1.pdf");
    assert_eq!(inside(".docx"), ".docx.pdf");
    assert_eq!(inside("a..docx"), "a.pdf");
    assert_eq!(inside(""), "converted.pdf");
    assert_eq!(inside(".."), "converted.pdf");
    assert!(matches!(pdf_name("..docx"), PdfFile::Beside));
    assert!(matches!(pdf_name("...docx"), PdfFile::Above));
}

#[test]
fn uploads_are_stored_under_safe_names() {
    assert_eq!(upload_name("my deck.apkg", false), "upload-my deck.apkg");
    assert_eq!(upload_name("../../etc/pass:wd\n", false), "upload-....etcpasswd");
    assert_eq!(upload_name("..", false), "upload-");
    assert_eq!(upload_name("con", true), "upload-");
    assert_eq!(upload_name("con", false), "upload-con");
    let long = "ä".repeat(200);
    assert_eq!(upload_name(&long, false), format!("upload-{}", "ä".repeat(127)));
}

#[test]
fn deck_uploads_need_a_name() {
    assert!(matches!(deck_field(Some("other"), Some("x"), false), DeckField::Skip));
    assert!(matches!(deck_field(None, Some("x"), false), DeckField::Skip));
    assert!(matches!(deck_field(Some("deck_file"), None, false), DeckField::MissingName));
    match deck_field(Some("deck_file"), Some("a/b.apkg"), false) {
        DeckField::Store(original, stored) => {
            assert_eq!(original, "a/b.apkg");
            assert_eq!(stored, "upload-ab.apkg");
        }
        _ => panic!("a named deck is stored"),
    }
}

#[test]
fn material_uploads_prefer_files() {
    assert_eq!(material_field(Some("material_file")), MaterialField::File);
    assert_eq!(material_field(Some("query_text")), MaterialField::QueryText);
    assert_eq!(material_field(Some("x")), MaterialField::Other);
    assert_eq!(material_field(None), MaterialField::Other);

    assert!(matches!(MaterialUpload::new().outcome(), UploadOutcome::Nothing));

    let mut text_only = MaterialUpload::new();
    text_only.take_text("pasted".to_string());
    match text_only.outcome() {
        UploadOutcome::Text(text) => assert_eq!(text, "pasted"),
        _ => panic!("a text is a material"),
    }

    let mut both = MaterialUpload::new();
    both.take_text("pasted".to_string());
    assert_eq!(both.take_file("a.TXT", false), "upload-a.TXT");
    assert_eq!(both.take_file("notes", false), "upload-notes");
    assert_eq!(both.take_file("b.pdf", false), "upload-b.pdf");
    match both.outcome() {
        UploadOutcome::File(file) => {
            assert_eq!(file.filename, "b.pdf");
            assert_eq!(file.stored, "upload-b.pdf");
            assert_eq!(file.kind, "pdf");
        }
        _ => panic!("a file comes before a text"),
    }

    let mut bare = MaterialUpload::new();
    bare.take_file("notes", false);
    match bare.outcome() {
        UploadOutcome::File(file) => assert_eq!(file.kind, "file"),
        _ => panic!("a file is a material"),
    }
}

#[test]
fn pages_have_paths() {
    assert_eq!(path_of(PageKind::Deck, 5), "/decks/5");
    assert_eq!(path_of(PageKind::Material, -1), "/materials/-1");
    assert_eq!(path_of(PageKind::Search, 0), "/searches/0");
    assert_eq!(missing(PageKind::Deck, 5).message(), "deck 5 not found");
    assert_eq!(missing(PageKind::Material, 5).message(), "material 5 not found");
    assert_eq!(missing(PageKind::Search, 5).message(), "search 5 not found");
    assert!(should_refresh("pending"));
    assert!(!should_refresh("ready"));
    assert!(is_wanted("add"));
    assert!(!is_wanted("remove"));
}

fn no_env() -> AppEnv {
    AppEnv {
        current_dir: "/srv".to_string(),
        data_dir: None,
        host: None,
        port: None,
        qdrant_url: None,
        qdrant_collection: None,
        tei_url: None,
        unoconvert_bin: None,
        rerank_strategy: None,
        embedding_vector_size: None,
    }
}

#[test]
fn settings_have_defaults() {
    let config = Config::from_env(no_env());
    assert_eq!(config.bind_addr, "127.0.0.1:3000");
    assert_eq!(config.data_dir, "/srv/data");
    assert_eq!(config.decks_dir, "/srv/data/decks");
    assert_eq!(config.materials_dir, "/srv/data/materials");
    assert_eq!(config.exports_dir, "/srv/data/exports");
    assert_eq!(config.temp_dir, "/srv/data/tmp");
    assert_eq!(config.static_dir, "/srv/assets");
    assert_eq!(config.qdrant_url, "http://127.0.0.1:6333");
    assert_eq!(config.qdrant_collection, "shiori_card_chunks");
    assert_eq!(config.tei_url, "http://127.0.0.1:8080");
    assert_eq!(config.unoconvert_bin, "unoconvert");
    assert_eq!(config.rerank_strategy, "best_chunk");
    assert_eq!(config.embedding_vector_size, 1024);
}

#[test]
fn settings_are_read() {
    let mut env = no_env();
    env.port = Some("4000".to_string());
    env.host = Some("::1".to_string());
    env.data_dir = Some("store/".to_string());
    env.tei_url = Some(String::new());
    env.embedding_vector_size = Some("x".to_string());
    let config = Config::from_env(env);
    assert_eq!(config.bind_addr, "[::1]:4000");
    assert_eq!(config.data_dir, "store/");
    assert_eq!(config.decks_dir, "store/decks");
    assert_eq!(config.tei_url, "");
    assert_eq!(config.embedding_vector_size, 1024);
    let mut odd = no_env();
    odd.port = Some("65536".to_string());
    odd.host = Some("0.0.0.0".to_string());
    odd.data_dir = Some(String::new());
    odd.current_dir = "/".to_string();
    let config = Config::from_env(odd);
    assert_eq!(config.bind_addr, "0.0.0.0:3000");
    assert_eq!(config.temp_dir, "tmp");
    assert_eq!(config.static_dir, "/assets");
    for dir in ["/srv", "/", "", "a/", "a/b"] {
        let mut env = no_env();
        env.current_dir = dir.to_string();
        let path = std::path::Path::new(dir).join("data");
        assert_eq!(Config::from_env(env).data_dir, path.to_str().unwrap());
    }
}

#[test]
fn shim_settings_are_read() {
    let config = ShimConfig::from_env(ShimEnv {
        port: None,
        ollama_url: None,
        embedding_model: Some("  ".to_string()),
        llm_model: Some(" qwen ".to_string()),
        rerank_top_n: Some("3".to_string()),
        rerank_batch_size: None,
    });
    assert_eq!(config.port, 8080);
    assert_eq!(config.ollama_url, "http://127.0.0.1:11434");
    assert_eq!(config.embedding_model, "nomic-embed-text:latest");
    assert_eq!(config.llm_model, Some("qwen".to_string()));
    assert_eq!(config.rerank_top_n, 3);
    assert_eq!(config.rerank_batch_size, 8);
}
