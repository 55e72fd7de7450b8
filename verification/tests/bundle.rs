use verbas::codec::text_chars;
use verbas::config::{Chapter, EditorSettings, Metadata, ProjectConfig, StructurePaths};
use verbas::config::{parse_config, serialize_config};
use verbas::fsmodel::Fs;
use verbas::project::{
    clone_project, collect_archive_entries, create_project_at, delete_project, load_project,
    save_project, ProjectError,
};

fn s(text: &str) -> String {
    String::from(text)
}

fn chars_string(v: &Vec<char>) -> String {
    v.iter().collect()
}

fn sample_config() -> ProjectConfig {
    ProjectConfig {
        name: s("A \"strange\" name \\ with\nnewline"),
        version: 3,
        created_at: s("2024-01-02T03:04:05+00:00"),
        updated_at: s("2024-02-03T04:05:06+00:00"),
        editor: EditorSettings {
            font_family: s("Inter"),
            font_size: 18,
            theme: s("dark"),
            line_spacing_hundredths: 125,
        },
        structure: StructurePaths {
            chapters_path: s("chapters"),
            images_path: s("images"),
            fonts_path: s("fonts"),
            style_path: s("style"),
            exports_path: s("exports"),
            notes_path: s("notes"),
        },
        chapters: vec![
            Chapter { title: s("Uno"), file: s("chapters/uno.md") },
            Chapter { title: s("Due \"quoted\""), file: s("chapters/due.md") },
        ],
        metadata: Metadata {
            author: s("Someone"),
            language: s("it"),
            tags: vec![s("novel"), s("draft \\ two")],
            cover_image: s(""),
        },
    }
}

fn assert_config_eq(a: &ProjectConfig, b: &ProjectConfig) {
    assert_eq!(a.name, b.name);
    assert_eq!(a.version, b.version);
    assert_eq!(a.created_at, b.created_at);
    assert_eq!(a.updated_at, b.updated_at);
    assert_eq!(a.editor.font_family, b.editor.font_family);
    assert_eq!(a.editor.font_size, b.editor.font_size);
    assert_eq!(a.editor.theme, b.editor.theme);
    assert_eq!(a.editor.line_spacing_hundredths, b.editor.line_spacing_hundredths);
    assert_eq!(a.structure.chapters_path, b.structure.chapters_path);
    assert_eq!(a.structure.images_path, b.structure.images_path);
    assert_eq!(a.structure.fonts_path, b.structure.fonts_path);
    assert_eq!(a.structure.style_path, b.structure.style_path);
    assert_eq!(a.structure.exports_path, b.structure.exports_path);
    assert_eq!(a.structure.notes_path, b.structure.notes_path);
    assert_eq!(a.chapters.len(), b.chapters.len());
    for (ca, cb) in a.chapters.iter().zip(b.chapters.iter()) {
        assert_eq!(ca.title, cb.title);
        assert_eq!(ca.file, cb.file);
    }
    assert_eq!(a.metadata.author, b.metadata.author);
    assert_eq!(a.metadata.language, b.metadata.language);
    assert_eq!(a.metadata.tags, b.metadata.tags);
    assert_eq!(a.metadata.cover_image, b.metadata.cover_image);
}

#[test]
fn save_then_load_round_trips() {
    let mut fs = Fs::new();
    let config = sample_config();
    let path = s("projects/book.verbas");
    save_project(&mut fs, &path, &config).unwrap();
    let loaded = load_project(&fs, &path).unwrap();
    assert_config_eq(&config, &loaded);
}

#[test]
fn serializer_and_parser_invert_each_other() {
    let config = sample_config();
    let text = serialize_config(&config);
    let parsed = parse_config(&text).unwrap();
    assert_config_eq(&config, &parsed);
}

#[test]
fn create_bundle_produces_the_layout() {
    let mut fs = Fs::new();
    let now = s("2024-01-02T03:04:05+00:00");
    create_project_at(&mut fs, &s("mybook"), &s("projects/mybook"), &now).unwrap();
    for folder in ["chapters", "images", "fonts", "style", "exports", "notes"] {
        let p = format!("projects/mybook/{}", folder);
        assert!(fs.dir_exists(&p), "missing folder {}", p);
    }
    assert!(fs.file_exists(&s("projects/mybook/chapters/base.md")));
    let seed = fs.read_file(&s("projects/mybook/chapters/base.md")).unwrap();
    let seed_text = chars_string(seed);
    assert!(seed_text.starts_with("+++\n"));
    assert!(seed_text.contains("created_at = \"2024-01-02T03:04:05+00:00\""));
    let loaded = load_project(&fs, &s("projects/mybook/mybook.verbas")).unwrap();
    assert_eq!(loaded.name, "mybook");
    assert_eq!(loaded.version, 1);
    assert!(loaded.chapters.is_empty());
    assert_eq!(loaded.editor.font_family, "Inter");
    assert_eq!(loaded.editor.font_size, 16);
    assert_eq!(loaded.editor.theme, "light");
    assert_eq!(loaded.editor.line_spacing_hundredths, 150);
    assert_eq!(loaded.metadata.language, "it");
    assert!(loaded.metadata.tags.is_empty());
}

#[test]
fn create_bundle_twice_fails_and_keeps_the_first() {
    let mut fs = Fs::new();
    let now = s("2024-01-02T03:04:05+00:00");
    create_project_at(&mut fs, &s("mybook"), &s("projects/mybook"), &now).unwrap();
    let again = create_project_at(&mut fs, &s("other"), &s("projects/mybook"), &now);
    assert!(matches!(again, Err(ProjectError::AlreadyExists)));
    let loaded = load_project(&fs, &s("projects/mybook/mybook.verbas")).unwrap();
    assert_eq!(loaded.name, "mybook");
    assert!(fs.file_exists(&s("projects/mybook/chapters/base.md")));
}

#[test]
fn load_missing_file_is_io_error() {
    let fs = Fs::new();
    let r = load_project(&fs, &s("nowhere/m.verbas"));
    assert!(matches!(r, Err(ProjectError::IoError(_))));
}

#[test]
fn load_invalid_text_is_format_error() {
    let mut fs = Fs::new();
    let path = s("projects/bad.verbas");
    fs.write_file(&path, text_chars("this is { not a manifest ]"));
    let r = load_project(&fs, &path);
    assert!(matches!(r, Err(ProjectError::FormatError(_))));
}

#[test]
fn load_rejects_a_number_with_a_leading_zero() {
    let mut fs = Fs::new();
    let canonical = chars_string(&serialize_config(&sample_config()));
    let padded = canonical.replace("\"version\": 3", "\"version\": 03");
    assert_ne!(canonical, padded);
    let path = s("projects/padded.verbas");
    fs.write_file(&path, text_chars(&padded));
    let r = load_project(&fs, &path);
    assert!(matches!(r, Err(ProjectError::FormatError(_))));
}

#[test]
fn load_rejects_a_raw_newline_inside_a_string() {
    let mut fs = Fs::new();
    let mut config = sample_config();
    config.metadata.author = s("line-one MARKER line-two");
    let canonical = chars_string(&serialize_config(&config));
    let raw = canonical.replace(" MARKER ", "\n");
    assert_ne!(canonical, raw);
    let path = s("projects/raw.verbas");
    fs.write_file(&path, text_chars(&raw));
    let r = load_project(&fs, &path);
    assert!(matches!(r, Err(ProjectError::FormatError(_))));
}

#[test]
fn clone_with_trailing_separator_is_path_error() {
    let mut fs = Fs::new();
    let now = s("2024-01-02T03:04:05+00:00");
    create_project_at(&mut fs, &s("mybook"), &s("projects/mybook"), &now).unwrap();
    let r = clone_project(&mut fs, &s("projects/mybook/"), &s("copies/second"));
    assert!(matches!(r, Err(ProjectError::PathError(_))));
}

#[test]
fn clone_into_an_existing_folder_merges() {
    let mut fs = Fs::new();
    let now = s("2024-01-02T03:04:05+00:00");
    create_project_at(&mut fs, &s("mybook"), &s("projects/mybook"), &now).unwrap();
    fs.create_dir(&s("copies/second"));
    fs.write_file(&s("copies/second/extra.txt"), text_chars("kept"));
    let new_path = clone_project(&mut fs, &s("projects/mybook/mybook.verbas"), &s(
        "copies/second",
    ))
    .unwrap();
    assert_eq!(new_path, "copies/second/mybook.verbas");
    // A pre-existing entry with no counterpart in the source remains.
    assert_eq!(fs.read_file(&s("copies/second/extra.txt")).unwrap(), &text_chars("kept"));
    let loaded = load_project(&fs, &new_path).unwrap();
    assert_eq!(loaded.name, "mybook");
}

#[test]
fn archive_lists_every_entry_once_and_never_the_root() {
    let mut fs = Fs::new();
    let now = s("2024-01-02T03:04:05+00:00");
    create_project_at(&mut fs, &s("mybook"), &s("projects/mybook"), &now).unwrap();
    // Make every folder non-empty.
    for folder in ["images", "fonts", "style", "exports", "notes"] {
        let p = format!("projects/mybook/{}/keep.txt", folder);
        fs.write_file(&p, text_chars("x"));
    }
    let entries = collect_archive_entries(&fs, &s("projects/mybook/mybook.verbas")).unwrap();
    let dir_entries: Vec<_> = entries.iter().filter(|e| e.is_dir).collect();
    let file_entries: Vec<_> = entries.iter().filter(|e| !e.is_dir).collect();
    // Six non-empty folders, and seven files: the seed, the manifest, five markers.
    assert_eq!(dir_entries.len(), 6);
    assert_eq!(file_entries.len(), 7);
    for e in entries.iter() {
        assert!(!e.path.is_empty());
        assert!(!e.path.starts_with("projects/mybook"));
    }
    let manifest = file_entries.iter().find(|e| e.path == "mybook.verbas").unwrap();
    let on_disk = fs.read_file(&s("projects/mybook/mybook.verbas")).unwrap();
    assert_eq!(&manifest.data, on_disk);
}

#[test]
fn clone_reproduces_the_relative_tree() {
    let mut fs = Fs::new();
    let now = s("2024-01-02T03:04:05+00:00");
    create_project_at(&mut fs, &s("mybook"), &s("projects/mybook"), &now).unwrap();
    fs.write_file(&s("projects/mybook/notes/todo.md"), text_chars("remember"));
    let new_path = clone_project(&mut fs, &s("projects/mybook/mybook.verbas"), &s(
        "copies/second",
    ))
    .unwrap();
    assert_eq!(new_path, "copies/second/mybook.verbas");
    for folder in ["chapters", "images", "fonts", "style", "exports", "notes"] {
        let p = format!("copies/second/{}", folder);
        assert!(fs.dir_exists(&p), "missing cloned folder {}", p);
    }
    for rel in ["chapters/base.md", "mybook.verbas", "notes/todo.md"] {
        let src = format!("projects/mybook/{}", rel);
        let dst = format!("copies/second/{}", rel);
        let a = fs.read_file(&src).expect("source file");
        let b = fs.read_file(&dst).expect("cloned file");
        assert_eq!(a, b, "content differs for {}", rel);
    }
    let loaded = load_project(&fs, &new_path).unwrap();
    assert_eq!(loaded.name, "mybook");
}

#[test]
fn clone_without_parent_is_path_error() {
    let mut fs = Fs::new();
    let r = clone_project(&mut fs, &s("noslash"), &s("copies/second"));
    assert!(matches!(r, Err(ProjectError::PathError(_))));
}

#[test]
fn delete_removes_only_the_manifest() {
    let mut fs = Fs::new();
    let now = s("2024-01-02T03:04:05+00:00");
    create_project_at(&mut fs, &s("mybook"), &s("projects/mybook"), &now).unwrap();
    delete_project(&mut fs, &s("projects/mybook/mybook.verbas")).unwrap();
    let r = load_project(&fs, &s("projects/mybook/mybook.verbas"));
    assert!(matches!(r, Err(ProjectError::IoError(_))));
    for folder in ["chapters", "images", "fonts", "style", "exports", "notes"] {
        let p = format!("projects/mybook/{}", folder);
        assert!(fs.dir_exists(&p), "folder {} should remain", p);
    }
    assert!(fs.file_exists(&s("projects/mybook/chapters/base.md")));
}

#[test]
fn delete_missing_manifest_is_io_error() {
    let mut fs = Fs::new();
    let r = delete_project(&mut fs, &s("projects/none.verbas"));
    assert!(matches!(r, Err(ProjectError::IoError(_))));
}

#[test]
fn manifest_text_is_well_formed_json() {
    let mut fs = Fs::new();
    let now = s("2024-01-02T03:04:05+00:00");
    create_project_at(&mut fs, &s("mybook"), &s("projects/mybook"), &now).unwrap();
    let content = fs.read_file(&s("projects/mybook/mybook.verbas")).unwrap();
    let text = chars_string(content);
    let value: serde_json::Value = serde_json::from_str(&text).unwrap();
    assert_eq!(value["name"], "mybook");
    assert_eq!(value["version"], 1);
    assert_eq!(value["created_at"], "2024-01-02T03:04:05+00:00");
    assert_eq!(value["editor"]["font_size"], 16);
    assert_eq!(value["editor"]["line_spacing"], 1.5);
    assert_eq!(value["structure"]["chapters_path"], "chapters");
    assert_eq!(value["metadata"]["language"], "it");
    assert!(value["chapters"].as_array().unwrap().is_empty());
}

#[test]
fn escaped_manifest_text_parses_as_json_too() {
    let config = sample_config();
    let text_chars_vec = serialize_config(&config);
    let text = chars_string(&text_chars_vec);
    let value: serde_json::Value = serde_json::from_str(&text).unwrap();
    assert_eq!(value["name"], "A \"strange\" name \\ with\nnewline");
    assert_eq!(value["editor"]["line_spacing"], 1.25);
    assert_eq!(value["chapters"][1]["title"], "Due \"quoted\"");
    assert_eq!(value["metadata"]["tags"][1], "draft \\ two");
}
