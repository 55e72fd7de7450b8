//! The bundle lifecycle operations: creating a project bundle, loading and
//! saving its manifest, cloning a bundle, collecting its archive entries and
//! deleting its manifest — all against the filesystem model.
use vstd::prelude::*;

use crate::codec::push_lit;
use crate::config::{
    default_config_view, ser_config, ConfigView, ProjectConfig, parse_config, serialize_config,
};
use crate::fsmodel::{exists_path, Fs};

verus! {

/// The error kinds of the bundle operations. Each carries the path on which
/// the operation failed.
#[derive(Debug)]
pub enum ProjectError {
    /// The target path of a new bundle already exists.
    AlreadyExists,
    /// A file was absent or could not be touched.
    IoError(String),
    /// A manifest file did not hold a well-formed manifest text.
    FormatError(String),
    /// A supplied path lacked an expected component.
    PathError(String),
}

// ---------------------------------------------------------------------------
// Paths.
// ---------------------------------------------------------------------------

/// Two path segments joined by a separator.
pub open spec fn join_seq(base: Seq<char>, child: Seq<char>) -> Seq<char> {
    base + (seq!['/'] + child)
}

/// The position of the last separator of `p`, or a negative value.
pub open spec fn last_slash(p: Seq<char>) -> int
    decreases p.len(),
{
    if p.len() == 0 {
        -1
    } else if p[p.len() - 1] == '/' {
        p.len() - 1
    } else {
        last_slash(p.drop_last())
    }
}

/// What stands before the last separator of `p`.
pub open spec fn parent_of(p: Seq<char>) -> Seq<char> {
    p.subrange(0, last_slash(p))
}

/// What stands after the last separator of `p`.
pub open spec fn base_of(p: Seq<char>) -> Seq<char> {
    p.subrange(last_slash(p) + 1, p.len() as int)
}

/// `p` splits into a parent directory and a non-empty base name.
pub open spec fn manifest_path_ok(p: Seq<char>) -> bool {
    0 <= last_slash(p) && last_slash(p) + 1 < p.len()
}

/// `p` lies strictly inside the directory `root`.
pub open spec fn under_dir(root: Seq<char>, p: Seq<char>) -> bool {
    &&& p.len() > root.len()
    &&& p.subrange(0, root.len() as int) == root
    &&& p[root.len() as int] == '/'
}

/// The path of `p` relative to the directory `root`.
pub open spec fn rel_of(root: Seq<char>, p: Seq<char>) -> Seq<char> {
    p.subrange(root.len() as int + 1, p.len() as int)
}

/// `p`, moved from below `root` to the same place below `dst`.
pub open spec fn retarget(root: Seq<char>, dst: Seq<char>, p: Seq<char>) -> Seq<char> {
    join_seq(dst, rel_of(root, p))
}

/// A path inside a directory is the directory joined with its relative path.
pub proof fn lemma_under_join(root: Seq<char>, p: Seq<char>)
    requires
        under_dir(root, p),
    ensures
        join_seq(root, rel_of(root, p)) == p,
{
    assert(join_seq(root, rel_of(root, p)) =~= p);
}

/// Joins two path segments with a separator.
pub fn join_path(base: &str, child: &str) -> (r: String)
    ensures
        r@ == join_seq(base@, child@),
{
    let mut s = base.to_owned();
    s.append("/");
    s.append(child);
    proof {
        reveal_strlit("/");
        assert(s@ =~= join_seq(base@, child@));
    }
    s
}

/// Finds the last separator of `p`, if any.
fn find_last_slash(p: &String) -> (r: Option<usize>)
    ensures
        match r {
            Some(i) => i < p@.len() && last_slash(p@) == i && p@[i as int] == '/',
            None => last_slash(p@) < 0,
        },
{
    let s = p.as_str();
    let n = s.unicode_len();
    let mut k = n;
    proof {
        assert(p@.subrange(0, n as int) =~= p@);
    }
    while k > 0
        invariant
            s@ == p@,
            n == p@.len(),
            k <= n,
            last_slash(p@) == last_slash(p@.subrange(0, k as int)),
        decreases k,
    {
        proof {
            lemma_last_slash_prefix(p@, k as int);
        }
        let c = s.get_char(k - 1);
        if c == '/' {
            return Some(k - 1);
        }
        k -= 1;
    }
    None
}

/// Truncating just after the last character of a prefix steps the search for
/// the last separator.
proof fn lemma_last_slash_prefix(p: Seq<char>, k: int)
    requires
        0 < k <= p.len(),
    ensures
        p[k - 1] == '/' ==> last_slash(p.subrange(0, k)) == k - 1,
        p[k - 1] != '/' ==> last_slash(p.subrange(0, k)) == last_slash(p.subrange(0, k - 1)),
{
    let t = p.subrange(0, k);
    assert(t[t.len() - 1] == p[k - 1]);
    if p[k - 1] != '/' {
        assert(t.drop_last() =~= p.subrange(0, k - 1));
    }
}

/// Splits `p` at its last separator into parent and base name.
fn split_path(p: &String) -> (r: Option<(String, String)>)
    ensures
        match r {
            Some(pair) => 0 <= last_slash(p@) < p@.len() && pair.0@ == parent_of(p@) && pair.1@
                == base_of(p@),
            None => last_slash(p@) < 0,
        },
{
    let s = p.as_str();
    let n = s.unicode_len();
    match find_last_slash(p) {
        None => None,
        Some(i) => {
            let par = s.substring_char(0, i).to_owned();
            let base = s.substring_char(i + 1, n).to_owned();
            Some((par, base))
        },
    }
}

// ---------------------------------------------------------------------------
// Defaults and the seed document.
// ---------------------------------------------------------------------------

/// Builds the default manifest of a fresh bundle.
pub fn default_config(name: &String, now: &String) -> (c: ProjectConfig)
    ensures
        c@ == default_config_view(name@, now@),
{
    let c = ProjectConfig {
        name: name.clone(),
        version: 1,
        created_at: now.clone(),
        updated_at: now.clone(),
        editor: crate::config::EditorSettings {
            font_family: String::from_str("Inter"),
            font_size: 16,
            theme: String::from_str("light"),
            line_spacing_hundredths: 150,
        },
        structure: crate::config::StructurePaths {
            chapters_path: String::from_str("chapters"),
            images_path: String::from_str("images"),
            fonts_path: String::from_str("fonts"),
            style_path: String::from_str("style"),
            exports_path: String::from_str("exports"),
            notes_path: String::from_str("notes"),
        },
        chapters: Vec::new(),
        metadata: crate::config::Metadata {
            author: String::new(),
            language: String::from_str("it"),
            tags: Vec::new(),
            cover_image: String::new(),
        },
    };
    proof {
        assert(crate::config::chs_view(c.chapters@) =~= Seq::<crate::config::ChapterView>::empty());
        assert(crate::config::tags_view(c.metadata.tags@) =~= Seq::<Seq<char>>::empty());
    }
    c
}

/// The text of the seed document: a front-matter block carrying the creation
/// time twice, then a fixed welcome body.
pub open spec fn seed_content(now: Seq<char>) -> Seq<char> {
    "+++\ntitle = \"Capitolo di base\"\ncreated_at = \""@ + (now + ("\"\nupdated_at = \""@ + (now
        + "\"\n+++\n\n# Benvenuto in Verbas\n\nQuesto è un file `base.md` generato automaticamente nella cartella `chapters/`.\n\nUsa questo file come punto di partenza per iniziare a scrivere il tuo libro, documento o progetto creativo.\n\nPuoi modificarlo liberamente, rinominarlo o aggiungere altri capitoli dalla tua interfaccia.\n"@)))
}

/// Renders the seed document.
fn build_seed(now: &String) -> (v: Vec<char>)
    ensures
        v@ == seed_content(now@),
{
    let mut v: Vec<char> = Vec::new();
    push_lit(&mut v, "+++\ntitle = \"Capitolo di base\"\ncreated_at = \"");
    push_lit(&mut v, now.as_str());
    push_lit(&mut v, "\"\nupdated_at = \"");
    push_lit(&mut v, now.as_str());
    push_lit(
        &mut v,
        "\"\n+++\n\n# Benvenuto in Verbas\n\nQuesto è un file `base.md` generato automaticamente nella cartella `chapters/`.\n\nUsa questo file come punto di partenza per iniziare a scrivere il tuo libro, documento o progetto creativo.\n\nPuoi modificarlo liberamente, rinominarlo o aggiungere altri capitoli dalla tua interfaccia.\n",
    );
    proof {
        assert(v@ =~= seed_content(now@));
    }
    v
}

// ---------------------------------------------------------------------------
// The manifest store.
// ---------------------------------------------------------------------------

/// Saves a manifest: the file at `path` afterwards holds exactly the
/// manifest's canonical rendering, and nothing else changes.
pub fn save_project(fs: &mut Fs, path: &String, config: &ProjectConfig) -> (r: Result<
    (),
    ProjectError,
>)
    requires
        old(fs).wf(),
    ensures
        final(fs).wf(),
        r is Ok,
        final(fs)@.files == old(fs)@.files.insert(path@, ser_config(config@)),
        final(fs)@.dirs == old(fs)@.dirs,
{
    let data = serialize_config(config);
    fs.write_file(path, data);
    Ok(())
}

/// Loads a manifest. An absent file gives `IoError`; a present file whose
/// text is not the canonical rendering of any manifest value gives
/// `FormatError`, exactly; and a file holding the canonical rendering of a
/// manifest value loads to exactly that value — with `save_project`'s
/// contract, the save/load round trip is lossless.
pub fn load_project(fs: &Fs, path: &String) -> (r: Result<ProjectConfig, ProjectError>)
    requires
        fs.wf(),
    ensures
        (r is Err && r->Err_0 is IoError) <==> !fs@.files.contains_key(path@),
        r is Err ==> (r->Err_0 is IoError || r->Err_0 is FormatError),
        r is Ok ==> fs@.files.contains_key(path@) && fs@.files[path@] == ser_config(r->Ok_0@),
        (r is Err && r->Err_0 is FormatError) <==> (fs@.files.contains_key(path@) && !(
        exists|m: ConfigView| fs@.files[path@] == ser_config(m))),
        forall|m: ConfigView|
            (fs@.files.contains_key(path@) && fs@.files[path@] == ser_config(m)) ==> (r is Ok
                && r->Ok_0@ == m),
{
    match fs.read_file(path) {
        None => Err(ProjectError::IoError(path.clone())),
        Some(data) => match parse_config(data) {
            Some(c) => {
                proof {
                    assert(fs@.files[path@] == ser_config(c@));
                }
                Ok(c)
            },
            None => {
                proof {
                    if exists|m: ConfigView| fs@.files[path@] == ser_config(m) {
                        let m = choose|m: ConfigView| fs@.files[path@] == ser_config(m);
                        assert(data@ == ser_config(m));
                        assert(false);
                    }
                }
                Err(ProjectError::FormatError(path.clone()))
            },
        },
    }
}

// ---------------------------------------------------------------------------
// The bundle initializer and deleter.
// ---------------------------------------------------------------------------

/// Creates a new bundle at `directory` with the given creation time: the
/// directory, its six canonical subfolders, the seed document and the default
/// manifest — or fails with `AlreadyExists`, changing nothing, when the
/// target path is present.
pub fn create_project_at(fs: &mut Fs, name: &String, directory: &String, now: &String) -> (r:
    Result<(), ProjectError>)
    requires
        old(fs).wf(),
    ensures
        final(fs).wf(),
        exists_path(old(fs)@, directory@) ==> (r is Err && r->Err_0 is AlreadyExists && final(fs)@
            == old(fs)@),
        !exists_path(old(fs)@, directory@) ==> (r is Ok && final(fs)@.dirs == old(
            fs,
        )@.dirs.insert(directory@).insert(join_seq(directory@, "chapters"@)).insert(
            join_seq(directory@, "images"@),
        ).insert(join_seq(directory@, "fonts"@)).insert(join_seq(directory@, "style"@)).insert(
            join_seq(directory@, "exports"@),
        ).insert(join_seq(directory@, "notes"@)) && final(fs)@.files == old(fs)@.files.insert(
            join_seq(join_seq(directory@, "chapters"@), "base.md"@),
            seed_content(now@),
        ).insert(
            join_seq(directory@, name@ + ".verbas"@),
            ser_config(default_config_view(name@, now@)),
        )),
{
    if fs.dir_exists(directory) {
        return Err(ProjectError::AlreadyExists);
    }
    if fs.file_exists(directory) {
        return Err(ProjectError::AlreadyExists);
    }
    fs.create_dir(directory);
    let chapters_dir = join_path(directory.as_str(), "chapters");
    fs.create_dir(&chapters_dir);
    fs.create_dir(&join_path(directory.as_str(), "images"));
    fs.create_dir(&join_path(directory.as_str(), "fonts"));
    fs.create_dir(&join_path(directory.as_str(), "style"));
    fs.create_dir(&join_path(directory.as_str(), "exports"));
    fs.create_dir(&join_path(directory.as_str(), "notes"));
    let seed = build_seed(now);
    let seed_path = join_path(chapters_dir.as_str(), "base.md");
    fs.write_file(&seed_path, seed);
    let config = default_config(name, now);
    let file_name = name.clone().concat(".verbas");
    let config_path = join_path(directory.as_str(), file_name.as_str());
    save_project(fs, &config_path, &config)
}

/// Creates a new bundle stamped with the current time.
pub fn create_new_project(fs: &mut Fs, name: &String, directory: &String) -> (r: Result<
    (),
    ProjectError,
>)
    requires
        old(fs).wf(),
    ensures
        final(fs).wf(),
        exists_path(old(fs)@, directory@) ==> (r is Err && r->Err_0 is AlreadyExists && final(fs)@
            == old(fs)@),
        !exists_path(old(fs)@, directory@) ==> (r is Ok && exists|now: Seq<char>|
            final(fs)@.dirs == old(fs)@.dirs.insert(directory@).insert(
                join_seq(directory@, "chapters"@),
            ).insert(join_seq(directory@, "images"@)).insert(join_seq(directory@, "fonts"@)).insert(
                join_seq(directory@, "style"@),
            ).insert(join_seq(directory@, "exports"@)).insert(join_seq(directory@, "notes"@))
                && final(fs)@.files == old(fs)@.files.insert(
                join_seq(join_seq(directory@, "chapters"@), "base.md"@),
                seed_content(now),
            ).insert(
                join_seq(directory@, name@ + ".verbas"@),
                ser_config(default_config_view(name@, now)),
            )),
{
    let now = now_rfc3339();
    let r = create_project_at(fs, name, directory, &now);
    proof {
        if !exists_path(old(fs)@, directory@) {
            assert(final(fs)@.files == old(fs)@.files.insert(
                join_seq(join_seq(directory@, "chapters"@), "base.md"@),
                seed_content(now@),
            ).insert(
                join_seq(directory@, name@ + ".verbas"@),
                ser_config(default_config_view(name@, now@)),
            ));
        }
    }
    r
}

/// Relies on chrono's `DateTime::<Utc>::from_timestamp` and
/// `DateTime::to_rfc3339`: the current moment rendered in the RFC 3339
/// date-time interchange format. The clock is read totally: a reading before
/// the Unix epoch, or outside chrono's range, falls back to the epoch, so the
/// call cannot panic. The result depends on the clock, so nothing is promised
/// of its value.
#[verifier::external_body]
fn now_rfc3339() -> (r: String) {
    let since_epoch = std::time::SystemTime::now()
        .duration_since(std::time::UNIX_EPOCH)
        .unwrap_or(std::time::Duration::ZERO);
    let secs = i64::try_from(since_epoch.as_secs()).unwrap_or(0);
    chrono::DateTime::<chrono::Utc>::from_timestamp(secs, since_epoch.subsec_nanos())
        .unwrap_or_default()
        .to_rfc3339()
}

/// Removes only the manifest file at `path`; the bundle's directories and
/// every other file stay. An absent file gives `IoError`.
pub fn delete_project(fs: &mut Fs, path: &String) -> (r: Result<(), ProjectError>)
    requires
        old(fs).wf(),
    ensures
        final(fs).wf(),
        final(fs)@.dirs == old(fs)@.dirs,
        old(fs)@.files.contains_key(path@) ==> (r is Ok && final(fs)@.files == old(
            fs,
        )@.files.remove(path@)),
        !old(fs)@.files.contains_key(path@) ==> (r is Err && r->Err_0 is IoError && final(fs)@.files
            == old(fs)@.files),
{
    if fs.remove_file(path) {
        Ok(())
    } else {
        proof {
            assert(old(fs)@.files.remove(path@) =~= old(fs)@.files);
        }
        Err(ProjectError::IoError(path.clone()))
    }
}

// ---------------------------------------------------------------------------
// The bundle cloner and archiver.
// ---------------------------------------------------------------------------

/// Copies a text buffer.
fn copy_chars(v: &Vec<char>) -> (r: Vec<char>)
    ensures
        r@ == v@,
{
    let mut r: Vec<char> = Vec::new();
    let n = v.len();
    let mut j: usize = 0;
    while j < n
        invariant
            n == v@.len(),
            j <= n,
            r@ == v@.subrange(0, j as int),
        decreases n - j,
    {
        r.push(v[j]);
        proof {
            assert(v@.subrange(0, j + 1) =~= v@.subrange(0, j as int).push(v@[j as int]));
        }
        j += 1;
    }
    proof {
        assert(v@.subrange(0, n as int) =~= v@);
    }
    r
}

/// Whether `p` lies strictly inside the directory `root`.
fn is_under(root: &String, p: &String) -> (r: bool)
    ensures
        r == under_dir(root@, p@),
{
    let rs = root.as_str();
    let ps = p.as_str();
    let rl = rs.unicode_len();
    let pl = ps.unicode_len();
    if pl <= rl {
        return false;
    }
    let mut j: usize = 0;
    while j < rl
        invariant
            rs@ == root@,
            ps@ == p@,
            rl == root@.len(),
            pl == p@.len(),
            pl > rl,
            j <= rl,
            forall|k: int| 0 <= k < j ==> p@[k] == root@[k],
        decreases rl - j,
    {
        if ps.get_char(j) != rs.get_char(j) {
            proof {
                if under_dir(root@, p@) {
                    assert(p@.subrange(0, root@.len() as int)[j as int] == p@[j as int]);
                }
            }
            return false;
        }
        j += 1;
    }
    if ps.get_char(rl) != '/' {
        return false;
    }
    proof {
        assert(p@.subrange(0, root@.len() as int) =~= root@);
    }
    true
}

/// The path of `p` relative to a directory of `root_len` characters.
fn rel_path(p: &String, root_len: usize) -> (r: String)
    requires
        root_len < p@.len(),
    ensures
        r@ == p@.subrange(root_len as int + 1, p@.len() as int),
{
    let s = p.as_str();
    let n = s.unicode_len();
    s.substring_char(root_len + 1, n).to_owned()
}

/// One entry of a bundle archive: a path relative to the bundle root, a kind,
/// and for files their text.
pub struct ArchiveEntry {
    pub path: String,
    pub is_dir: bool,
    pub data: Vec<char>,
}

/// Paths inside a directory with the same relative path are the same path.
pub proof fn lemma_rel_inj(root: Seq<char>, p1: Seq<char>, p2: Seq<char>)
    requires
        under_dir(root, p1),
        under_dir(root, p2),
        rel_of(root, p1) == rel_of(root, p2),
    ensures
        p1 == p2,
{
    lemma_under_join(root, p1);
    lemma_under_join(root, p2);
}


/// A joined path lies strictly inside its base directory.
pub proof fn lemma_join_under(base: Seq<char>, rel: Seq<char>)
    ensures
        under_dir(base, join_seq(base, rel)),
        rel_of(base, join_seq(base, rel)) == rel,
{
    assert(join_seq(base, rel).subrange(0, base.len() as int) =~= base);
    assert(rel_of(base, join_seq(base, rel)) =~= rel);
}

/// Joining distinct relative paths to one base gives distinct paths.
pub proof fn lemma_join_inj(base: Seq<char>, c1: Seq<char>, c2: Seq<char>)
    requires
        join_seq(base, c1) == join_seq(base, c2),
    ensures
        c1 == c2,
{
    lemma_join_under(base, c1);
    lemma_join_under(base, c2);
}

/// Collects one directory entry for each directory strictly inside `root`,
/// under its relative path.
fn collect_dir_entries(fs: &Fs, root: &String) -> (es: Vec<ArchiveEntry>)
    requires
        fs.wf(),
    ensures
        forall|j: int|
            0 <= j < es@.len() ==> #[trigger] es@[j].is_dir && es@[j].data@
                == Seq::<char>::empty() && fs@.dirs.contains(join_seq(root@, es@[j].path@)),
        forall|d: Seq<char>|
            fs@.dirs.contains(d) && under_dir(root@, d) ==> exists|j: int|
                0 <= j < es@.len() && es@[j].path@ == rel_of(root@, d),
        forall|j1: int, j2: int| 0 <= j1 < j2 < es@.len() ==> es@[j1].path@ != es@[j2].path@,
{
    proof {
        crate::fsmodel::lemma_dirs_set_index(fs.dirs@);
    }
    let root_len = root.as_str().unicode_len();
    let mut es: Vec<ArchiveEntry> = Vec::new();
    let ghost mut src: Seq<int> = Seq::empty();
    let nd = fs.dirs.len();
    let mut k: usize = 0;
    while k < nd
        invariant
            fs.wf(),
            root_len == root@.len(),
            nd == fs.dirs@.len(),
            k <= nd,
            src.len() == es@.len(),
            forall|j: int|
                0 <= j < fs.dirs@.len() ==> fs@.dirs.contains(#[trigger] fs.dirs@[j]@),
            forall|q: Seq<char>|
                fs@.dirs.contains(q) ==> exists|t: int| 0 <= t < fs.dirs@.len() && fs.dirs@[t]@
                    == q,
            forall|j: int|
                0 <= j < es@.len() ==> 0 <= #[trigger] src[j] < k && under_dir(
                    root@,
                    fs.dirs@[src[j]]@,
                ) && es@[j].is_dir && es@[j].data@ == Seq::<char>::empty() && es@[j].path@
                    == rel_of(root@, fs.dirs@[src[j]]@),
            forall|t: int|
                0 <= t < k && under_dir(root@, #[trigger] fs.dirs@[t]@) ==> exists|j: int|
                    0 <= j < es@.len() && es@[j].path@ == rel_of(root@, fs.dirs@[t]@),
            forall|j1: int, j2: int| 0 <= j1 < j2 < es@.len() ==> es@[j1].path@ != es@[j2].path@,
        decreases nd - k,
    {
        let d = &fs.dirs[k];
        if is_under(root, d) {
            let rp = rel_path(d, root_len);
            proof {
                assert forall|j: int| 0 <= j < es@.len() implies es@[j].path@ != rp@ by {
                    assert(0 <= src[j] < k);
                    if es@[j].path@ == rp@ {
                        lemma_rel_inj(root@, fs.dirs@[src[j]]@, d@);
                        assert(fs.dirs@[src[j]]@ != fs.dirs@[k as int]@);
                    }
                }
            }
            let ghost es0 = es@;
            let ghost src0 = src;
            es.push(ArchiveEntry { path: rp, is_dir: true, data: Vec::new() });
            proof {
                src = src.push(k as int);
                let last = es0.len() as int;
                assert forall|j: int|
                    0 <= j < es@.len() implies 0 <= #[trigger] src[j] < k + 1 && under_dir(
                    root@,
                    fs.dirs@[src[j]]@,
                ) && es@[j].is_dir && es@[j].data@ == Seq::<char>::empty() && es@[j].path@
                    == rel_of(root@, fs.dirs@[src[j]]@) by {
                    if j < last {
                        assert(src[j] == src0[j]);
                        assert(es@[j] == es0[j]);
                        assert(0 <= src0[j] < k);
                    } else {
                        assert(src[j] == k as int);
                        assert(es@[j].path@ == rp@);
                    }
                }
                assert forall|t: int|
                    0 <= t < k + 1 && under_dir(root@, #[trigger] fs.dirs@[t]@) implies exists|
                    j: int,
                |
                    0 <= j < es@.len() && es@[j].path@ == rel_of(root@, fs.dirs@[t]@) by {
                    if t == k {
                        assert(es@[last].path@ == rel_of(root@, fs.dirs@[t]@));
                    } else {
                        let j = choose|j: int|
                            0 <= j < es0.len() && es0[j].path@ == rel_of(root@, fs.dirs@[t]@);
                        assert(es@[j].path@ == rel_of(root@, fs.dirs@[t]@));
                    }
                }
            }
        } else {
            proof {
                assert forall|j: int|
                    0 <= j < es@.len() implies 0 <= #[trigger] src[j] < k + 1 && under_dir(
                    root@,
                    fs.dirs@[src[j]]@,
                ) && es@[j].is_dir && es@[j].data@ == Seq::<char>::empty() && es@[j].path@
                    == rel_of(root@, fs.dirs@[src[j]]@) by {
                    assert(0 <= src[j] < k);
                }
            }
        }
        k += 1;
    }
    proof {
        assert forall|j: int|
            0 <= j < es@.len() implies #[trigger] es@[j].is_dir && es@[j].data@
            == Seq::<char>::empty() && fs@.dirs.contains(join_seq(root@, es@[j].path@)) by {
            assert(0 <= src[j] < nd);
            lemma_under_join(root@, fs.dirs@[src[j]]@);
        }
        assert forall|d: Seq<char>|
            fs@.dirs.contains(d) && under_dir(root@, d) implies exists|j: int|
            0 <= j < es@.len() && es@[j].path@ == rel_of(root@, d) by {
            let t1 = choose|t: int| 0 <= t < fs.dirs@.len() && fs.dirs@[t]@ == d;
            let j = choose|j: int|
                0 <= j < es@.len() && es@[j].path@ == rel_of(root@, fs.dirs@[t1]@);
            assert(es@[j].path@ == rel_of(root@, d));
        }
    }
    es
}

/// Collects one file entry, with its text, for each file strictly inside
/// `root`, under its relative path.
fn collect_file_entries(fs: &Fs, root: &String) -> (es: Vec<ArchiveEntry>)
    requires
        fs.wf(),
    ensures
        forall|j: int|
            0 <= j < es@.len() ==> !(#[trigger] es@[j].is_dir) && fs@.files.contains_key(
                join_seq(root@, es@[j].path@),
            ) && es@[j].data@ == fs@.files[join_seq(root@, es@[j].path@)],
        forall|f: Seq<char>|
            fs@.files.contains_key(f) && under_dir(root@, f) ==> exists|j: int|
                0 <= j < es@.len() && es@[j].path@ == rel_of(root@, f),
        forall|j1: int, j2: int| 0 <= j1 < j2 < es@.len() ==> es@[j1].path@ != es@[j2].path@,
{
    proof {
        crate::fsmodel::lemma_files_map_index(fs.files@);
    }
    let root_len = root.as_str().unicode_len();
    let mut es: Vec<ArchiveEntry> = Vec::new();
    let ghost mut src: Seq<int> = Seq::empty();
    let nf = fs.files.len();
    let mut k: usize = 0;
    while k < nf
        invariant
            fs.wf(),
            root_len == root@.len(),
            nf == fs.files@.len(),
            k <= nf,
            src.len() == es@.len(),
            forall|j: int|
                0 <= j < fs.files@.len() ==> fs@.files.contains_key(#[trigger] fs.files@[j].path@)
                    && fs@.files[fs.files@[j].path@] == fs.files@[j].data@,
            forall|q: Seq<char>|
                fs@.files.contains_key(q) ==> exists|t: int| 0 <= t < fs.files@.len()
                    && fs.files@[t].path@ == q,
            forall|j: int|
                0 <= j < es@.len() ==> 0 <= #[trigger] src[j] < k && under_dir(
                    root@,
                    fs.files@[src[j]].path@,
                ) && !es@[j].is_dir && es@[j].path@ == rel_of(root@, fs.files@[src[j]].path@)
                    && es@[j].data@ == fs.files@[src[j]].data@,
            forall|t: int|
                0 <= t < k && under_dir(root@, #[trigger] fs.files@[t].path@) ==> exists|j: int|
                    0 <= j < es@.len() && es@[j].path@ == rel_of(root@, fs.files@[t].path@),
            forall|j1: int, j2: int| 0 <= j1 < j2 < es@.len() ==> es@[j1].path@ != es@[j2].path@,
        decreases nf - k,
    {
        let f = &fs.files[k];
        if is_under(root, &f.path) {
            let rp = rel_path(&f.path, root_len);
            let data = copy_chars(&f.data);
            proof {
                assert forall|j: int| 0 <= j < es@.len() implies es@[j].path@ != rp@ by {
                    assert(0 <= src[j] < k);
                    if es@[j].path@ == rp@ {
                        lemma_rel_inj(root@, fs.files@[src[j]].path@, f.path@);
                        assert(fs.files@[src[j]].path@ != fs.files@[k as int].path@);
                    }
                }
            }
            let ghost es0 = es@;
            let ghost src0 = src;
            es.push(ArchiveEntry { path: rp, is_dir: false, data });
            proof {
                src = src.push(k as int);
                let last = es0.len() as int;
                assert forall|j: int|
                    0 <= j < es@.len() implies 0 <= #[trigger] src[j] < k + 1 && under_dir(
                    root@,
                    fs.files@[src[j]].path@,
                ) && !es@[j].is_dir && es@[j].path@ == rel_of(root@, fs.files@[src[j]].path@)
                    && es@[j].data@ == fs.files@[src[j]].data@ by {
                    if j < last {
                        assert(src[j] == src0[j]);
                        assert(es@[j] == es0[j]);
                        assert(0 <= src0[j] < k);
                    } else {
                        assert(src[j] == k as int);
                        assert(es@[j].path@ == rp@);
                    }
                }
                assert forall|t: int|
                    0 <= t < k + 1 && under_dir(root@, #[trigger] fs.files@[t].path@) implies
                    exists|j: int|
                    0 <= j < es@.len() && es@[j].path@ == rel_of(root@, fs.files@[t].path@) by {
                    if t == k {
                        assert(es@[last].path@ == rel_of(root@, fs.files@[t].path@));
                    } else {
                        let j = choose|j: int|
                            0 <= j < es0.len() && es0[j].path@ == rel_of(
                                root@,
                                fs.files@[t].path@,
                            );
                        assert(es@[j].path@ == rel_of(root@, fs.files@[t].path@));
                    }
                }
            }
        } else {
            proof {
                assert forall|j: int|
                    0 <= j < es@.len() implies 0 <= #[trigger] src[j] < k + 1 && under_dir(
                    root@,
                    fs.files@[src[j]].path@,
                ) && !es@[j].is_dir && es@[j].path@ == rel_of(root@, fs.files@[src[j]].path@)
                    && es@[j].data@ == fs.files@[src[j]].data@ by {
                    assert(0 <= src[j] < k);
                }
            }
        }
        k += 1;
    }
    proof {
        assert forall|j: int|
            0 <= j < es@.len() implies !(#[trigger] es@[j].is_dir) && fs@.files.contains_key(
            join_seq(root@, es@[j].path@),
        ) && es@[j].data@ == fs@.files[join_seq(root@, es@[j].path@)] by {
            assert(0 <= src[j] < nf);
            lemma_under_join(root@, fs.files@[src[j]].path@);
        }
        assert forall|f: Seq<char>|
            fs@.files.contains_key(f) && under_dir(root@, f) implies exists|j: int|
            0 <= j < es@.len() && es@[j].path@ == rel_of(root@, f) by {
            let t1 = choose|t: int| 0 <= t < fs.files@.len() && fs.files@[t].path@ == f;
            let j = choose|j: int|
                0 <= j < es@.len() && es@[j].path@ == rel_of(root@, fs.files@[t1].path@);
            assert(es@[j].path@ == rel_of(root@, f));
        }
    }
    es
}

/// Walks the bundle that holds the manifest at `manifest_path` and collects
/// one archive entry for each directory and each file strictly inside the
/// bundle root, under its path relative to that root — the root itself gets
/// no entry, and directory entries carry no text. Fails with `PathError`
/// exactly when the manifest path lacks a parent or a non-empty base name.
pub fn collect_archive_entries(fs: &Fs, manifest_path: &String) -> (r: Result<
    Vec<ArchiveEntry>,
    ProjectError,
>)
    requires
        fs.wf(),
    ensures
        r is Err ==> r->Err_0 is PathError,
        r is Err <==> !manifest_path_ok(manifest_path@),
        r is Ok ==> forall|j: int|
            0 <= j < (r->Ok_0)@.len() && (r->Ok_0)@[j].is_dir ==> (r->Ok_0)@[j].data@
                == Seq::<char>::empty(),
        r is Ok ==> forall|j: int|
            0 <= j < (r->Ok_0)@.len() && (r->Ok_0)@[j].is_dir ==> fs@.dirs.contains(
                join_seq(parent_of(manifest_path@), (r->Ok_0)@[j].path@),
            ),
        r is Ok ==> forall|j: int|
            0 <= j < (r->Ok_0)@.len() && !(r->Ok_0)@[j].is_dir ==> fs@.files.contains_key(
                join_seq(parent_of(manifest_path@), (r->Ok_0)@[j].path@),
            ) && (r->Ok_0)@[j].data@ == fs@.files[join_seq(
                parent_of(manifest_path@),
                (r->Ok_0)@[j].path@,
            )],
        r is Ok ==> forall|d: Seq<char>|
            fs@.dirs.contains(d) && under_dir(parent_of(manifest_path@), d) ==> exists|j: int|
                0 <= j < (r->Ok_0)@.len() && (r->Ok_0)@[j].is_dir && (r->Ok_0)@[j].path@ == rel_of(
                    parent_of(manifest_path@),
                    d,
                ),
        r is Ok ==> forall|f: Seq<char>|
            fs@.files.contains_key(f) && under_dir(parent_of(manifest_path@), f) ==> exists|j: int|
                0 <= j < (r->Ok_0)@.len() && !(r->Ok_0)@[j].is_dir && (r->Ok_0)@[j].path@
                    == rel_of(parent_of(manifest_path@), f),
        r is Ok ==> forall|j1: int, j2: int|
            0 <= j1 < j2 < (r->Ok_0)@.len() ==> !((r->Ok_0)@[j1].is_dir == (r->Ok_0)@[j2].is_dir
                && (r->Ok_0)@[j1].path@ == (r->Ok_0)@[j2].path@),
{
    let (root, base) = match split_path(manifest_path) {
        None => {
            return Err(ProjectError::PathError(manifest_path.clone()));
        },
        Some(x) => x,
    };
    proof {
        assert(base_of(manifest_path@).len() == manifest_path@.len() - (last_slash(
            manifest_path@,
        ) + 1));
    }
    if base.as_str().unicode_len() == 0 {
        return Err(ProjectError::PathError(manifest_path.clone()));
    }
    let mut es = collect_dir_entries(fs, &root);
    let ghost d_es = es@;
    let mut fes = collect_file_entries(fs, &root);
    let ghost f_es = fes@;
    es.append(&mut fes);
    proof {
        let nd = d_es.len() as int;
        assert(es@ == d_es + f_es);
        assert(root@ == parent_of(manifest_path@));
        assert forall|j: int| 0 <= j < es@.len() implies (if j < nd {
            es@[j] == d_es[j]
        } else {
            es@[j] == f_es[j - nd]
        }) by {}
        assert forall|d: Seq<char>|
            fs@.dirs.contains(d) && under_dir(parent_of(manifest_path@), d) implies exists|j: int|
            0 <= j < es@.len() && es@[j].is_dir && es@[j].path@ == rel_of(
                parent_of(manifest_path@),
                d,
            ) by {
            assert(under_dir(root@, d));
            let j = choose|j: int| 0 <= j < d_es.len() && d_es[j].path@ == rel_of(root@, d);
            assert(es@[j].is_dir && es@[j].path@ == rel_of(parent_of(manifest_path@), d));
        }
        assert forall|f: Seq<char>|
            fs@.files.contains_key(f) && under_dir(parent_of(manifest_path@), f) implies exists|
            j: int,
        |
            0 <= j < es@.len() && !es@[j].is_dir && es@[j].path@ == rel_of(
                parent_of(manifest_path@),
                f,
            ) by {
            assert(under_dir(root@, f));
            let j = choose|j: int| 0 <= j < f_es.len() && f_es[j].path@ == rel_of(root@, f);
            assert(!es@[j + nd].is_dir && es@[j + nd].path@ == rel_of(
                parent_of(manifest_path@),
                f,
            ));
        }
        assert forall|j1: int, j2: int|
            0 <= j1 < j2 < es@.len() implies !(es@[j1].is_dir == es@[j2].is_dir && es@[j1].path@
            == es@[j2].path@) by {
            if j2 < nd {
                assert(es@[j1] == d_es[j1] && es@[j2] == d_es[j2]);
            } else if j1 >= nd {
                assert(es@[j1] == f_es[j1 - nd] && es@[j2] == f_es[j2 - nd]);
            } else {
                assert(es@[j1].is_dir && !es@[j2].is_dir);
            }
        }
    }
    Ok(es)
}

/// Clones the bundle that holds the manifest at `original_path`: `new_folder`
/// is created, every directory and file strictly inside the bundle root
/// reappears under `new_folder` at the same relative path with the same text,
/// everything else is untouched, and the returned path is the manifest's base
/// name joined to `new_folder`. Fails with `PathError` exactly when the
/// manifest path lacks a parent or a non-empty base name; on every other
/// input the clone succeeds.
#[verifier::rlimit(100)]
pub fn clone_project(fs: &mut Fs, original_path: &String, new_folder: &String) -> (r: Result<
    String,
    ProjectError,
>)
    requires
        old(fs).wf(),
    ensures
        final(fs).wf(),
        r is Err ==> r->Err_0 is PathError,
        r is Err <==> !manifest_path_ok(original_path@),
        !manifest_path_ok(original_path@) ==> final(fs)@ == old(fs)@,
        r is Ok ==> (r->Ok_0)@ == join_seq(new_folder@, base_of(original_path@)),
        r is Ok ==> forall|q: Seq<char>|
            final(fs)@.dirs.contains(q) <==> (old(fs)@.dirs.contains(q) || q == new_folder@ || (
            exists|d: Seq<char>|
                old(fs)@.dirs.contains(d) && under_dir(parent_of(original_path@), d) && q
                    == retarget(parent_of(original_path@), new_folder@, d))),
        r is Ok ==> forall|q: Seq<char>|
            final(fs)@.files.contains_key(q) <==> (old(fs)@.files.contains_key(q) || (
            exists|f: Seq<char>|
                old(fs)@.files.contains_key(f) && under_dir(parent_of(original_path@), f) && q
                    == retarget(parent_of(original_path@), new_folder@, f))),
        r is Ok ==> forall|f: Seq<char>|
            old(fs)@.files.contains_key(f) && under_dir(parent_of(original_path@), f)
                ==> final(fs)@.files[retarget(parent_of(original_path@), new_folder@, f)]
                == old(fs)@.files[f],
        r is Ok ==> forall|q: Seq<char>|
            old(fs)@.files.contains_key(q) && !(exists|f: Seq<char>|
                old(fs)@.files.contains_key(f) && under_dir(parent_of(original_path@), f) && q
                    == retarget(parent_of(original_path@), new_folder@, f)) ==> final(fs)@.files[q]
                == old(fs)@.files[q],
{
    let (_root, base) = match split_path(original_path) {
        None => {
            return Err(ProjectError::PathError(original_path.clone()));
        },
        Some(x) => x,
    };
    proof {
        assert(base_of(original_path@).len() == original_path@.len() - (last_slash(
            original_path@,
        ) + 1));
    }
    if base.as_str().unicode_len() == 0 {
        return Err(ProjectError::PathError(original_path.clone()));
    }
    proof {
        assert(manifest_path_ok(original_path@));
    }
    let ghost rootv = parent_of(original_path@);
    let es = match collect_archive_entries(fs, original_path) {
        Err(_) => {
            proof {
                assert(false);
            }
            return Err(ProjectError::PathError(original_path.clone()));
        },
        Ok(x) => x,
    };
    fs.create_dir(new_folder);
    let ne = es.len();
    let mut m: usize = 0;
    while m < ne
        invariant
            fs.wf(),
            ne == es@.len(),
            m <= ne,
            forall|j1: int, j2: int|
                0 <= j1 < j2 < es@.len() ==> !(es@[j1].is_dir == es@[j2].is_dir && es@[j1].path@
                    == es@[j2].path@),
            forall|q: Seq<char>|
                fs@.dirs.contains(q) <==> (old(fs)@.dirs.contains(q) || q == new_folder@ || (
                exists|j: int|
                    0 <= j < m && #[trigger] es@[j].is_dir && q == join_seq(
                        new_folder@,
                        es@[j].path@,
                    ))),
            forall|q: Seq<char>|
                fs@.files.contains_key(q) <==> (old(fs)@.files.contains_key(q) || (
                exists|j: int|
                    0 <= j < m && !(#[trigger] es@[j].is_dir) && q == join_seq(
                        new_folder@,
                        es@[j].path@,
                    ))),
            forall|j: int|
                0 <= j < m && !(#[trigger] es@[j].is_dir) ==> fs@.files.contains_key(
                    join_seq(new_folder@, es@[j].path@),
                ) && fs@.files[join_seq(new_folder@, es@[j].path@)] == es@[j].data@,
            forall|q: Seq<char>|
                old(fs)@.files.contains_key(q) && !(exists|j: int|
                    0 <= j < m && !(#[trigger] es@[j].is_dir) && q == join_seq(
                        new_folder@,
                        es@[j].path@,
                    )) ==> fs@.files.contains_key(q) && fs@.files[q] == old(fs)@.files[q],
        decreases ne - m,
    {
        let e = &es[m];
        let tgt = join_path(new_folder.as_str(), e.path.as_str());
        if e.is_dir {
            fs.create_dir(&tgt);
        } else {
            let data = copy_chars(&e.data);
            fs.write_file(&tgt, data);
            proof {
                assert forall|j: int|
                    0 <= j < m + 1 && !(#[trigger] es@[j].is_dir) implies fs@.files.contains_key(
                    join_seq(new_folder@, es@[j].path@),
                ) && fs@.files[join_seq(new_folder@, es@[j].path@)] == es@[j].data@ by {
                    if j < m {
                        if join_seq(new_folder@, es@[j].path@) == tgt@ {
                            lemma_join_inj(new_folder@, es@[j].path@, es@[m as int].path@);
                        }
                    }
                }
            }
        }
        proof {
            assert forall|q: Seq<char>|
                fs@.dirs.contains(q) implies (old(fs)@.dirs.contains(q) || q == new_folder@ || (
            exists|j: int|
                0 <= j < m + 1 && #[trigger] es@[j].is_dir && q == join_seq(
                    new_folder@,
                    es@[j].path@,
                ))) by {
                if q == tgt@ && es@[m as int].is_dir {
                    assert(es@[m as int].is_dir && q == join_seq(new_folder@, es@[m as int].path@));
                }
            }
            assert forall|q: Seq<char>|
                (old(fs)@.dirs.contains(q) || q == new_folder@ || (exists|j: int|
                    0 <= j < m + 1 && #[trigger] es@[j].is_dir && q == join_seq(
                        new_folder@,
                        es@[j].path@,
                    ))) implies fs@.dirs.contains(q) by {}
            assert forall|q: Seq<char>|
                fs@.files.contains_key(q) implies (old(fs)@.files.contains_key(q) || (
            exists|j: int|
                0 <= j < m + 1 && !(#[trigger] es@[j].is_dir) && q == join_seq(
                    new_folder@,
                    es@[j].path@,
                ))) by {
                if q == tgt@ && !es@[m as int].is_dir {
                    assert(!es@[m as int].is_dir && q == join_seq(
                        new_folder@,
                        es@[m as int].path@,
                    ));
                }
            }
        }
        m += 1;
    }
    proof {
        crate::fsmodel::lemma_dirs_set_index(old(fs).dirs@);
        crate::fsmodel::lemma_files_map_index(old(fs).files@);
        assert forall|q: Seq<char>|
            final(fs)@.dirs.contains(q) implies (old(fs)@.dirs.contains(q) || q == new_folder@ || (
        exists|d: Seq<char>|
            old(fs)@.dirs.contains(d) && under_dir(rootv, d) && q == retarget(
                rootv,
                new_folder@,
                d,
            ))) by {
            if !old(fs)@.dirs.contains(q) && q != new_folder@ {
                let j = choose|j: int|
                    0 <= j < es@.len() && #[trigger] es@[j].is_dir && q == join_seq(
                        new_folder@,
                        es@[j].path@,
                    );
                let d = join_seq(rootv, es@[j].path@);
                lemma_join_under(rootv, es@[j].path@);
                assert(old(fs)@.dirs.contains(d) && under_dir(rootv, d) && q == retarget(
                    rootv,
                    new_folder@,
                    d,
                ));
            }
        }
        assert forall|q: Seq<char>|
            (old(fs)@.dirs.contains(q) || q == new_folder@ || (exists|d: Seq<char>|
                old(fs)@.dirs.contains(d) && under_dir(rootv, d) && q == retarget(
                    rootv,
                    new_folder@,
                    d,
                ))) implies final(fs)@.dirs.contains(q) by {
            if !old(fs)@.dirs.contains(q) && q != new_folder@ {
                let d = choose|d: Seq<char>|
                    old(fs)@.dirs.contains(d) && under_dir(rootv, d) && q == retarget(
                        rootv,
                        new_folder@,
                        d,
                    );
                let j = choose|j: int|
                    0 <= j < es@.len() && es@[j].is_dir && es@[j].path@ == rel_of(rootv, d);
                assert(es@[j].is_dir && q == join_seq(new_folder@, es@[j].path@));
            }
        }
        assert forall|q: Seq<char>|
            final(fs)@.files.contains_key(q) implies (old(fs)@.files.contains_key(q) || (
        exists|f: Seq<char>|
            old(fs)@.files.contains_key(f) && under_dir(rootv, f) && q == retarget(
                rootv,
                new_folder@,
                f,
            ))) by {
            if !old(fs)@.files.contains_key(q) {
                let j = choose|j: int|
                    0 <= j < es@.len() && !(#[trigger] es@[j].is_dir) && q == join_seq(
                        new_folder@,
                        es@[j].path@,
                    );
                let f = join_seq(rootv, es@[j].path@);
                lemma_join_under(rootv, es@[j].path@);
                assert(old(fs)@.files.contains_key(f) && under_dir(rootv, f) && q == retarget(
                    rootv,
                    new_folder@,
                    f,
                ));
            }
        }
        assert forall|q: Seq<char>|
            (old(fs)@.files.contains_key(q) || (exists|f: Seq<char>|
                old(fs)@.files.contains_key(f) && under_dir(rootv, f) && q == retarget(
                    rootv,
                    new_folder@,
                    f,
                ))) implies final(fs)@.files.contains_key(q) by {
            if !old(fs)@.files.contains_key(q) {
                let f = choose|f: Seq<char>|
                    old(fs)@.files.contains_key(f) && under_dir(rootv, f) && q == retarget(
                        rootv,
                        new_folder@,
                        f,
                    );
                let j = choose|j: int|
                    0 <= j < es@.len() && !es@[j].is_dir && es@[j].path@ == rel_of(rootv, f);
                assert(!es@[j].is_dir && q == join_seq(new_folder@, es@[j].path@));
            }
        }
        assert forall|f: Seq<char>|
            old(fs)@.files.contains_key(f) && under_dir(rootv, f) implies final(fs)@.files[
        retarget(rootv, new_folder@, f)] == old(fs)@.files[f] by {
            let j = choose|j: int|
                0 <= j < es@.len() && !es@[j].is_dir && es@[j].path@ == rel_of(rootv, f);
            lemma_under_join(rootv, f);
            assert(es@[j].data@ == old(fs)@.files[join_seq(rootv, es@[j].path@)]);
            assert(final(fs)@.files[join_seq(new_folder@, es@[j].path@)] == es@[j].data@);
        }
        assert forall|q: Seq<char>|
            old(fs)@.files.contains_key(q) && !(exists|f: Seq<char>|
                old(fs)@.files.contains_key(f) && under_dir(rootv, f) && q == retarget(
                    rootv,
                    new_folder@,
                    f,
                )) implies final(fs)@.files[q] == old(fs)@.files[q] by {
            if exists|j: int|
                0 <= j < es@.len() && !(#[trigger] es@[j].is_dir) && q == join_seq(
                    new_folder@,
                    es@[j].path@,
                ) {
                let j = choose|j: int|
                    0 <= j < es@.len() && !(#[trigger] es@[j].is_dir) && q == join_seq(
                        new_folder@,
                        es@[j].path@,
                    );
                let f0 = join_seq(rootv, es@[j].path@);
                lemma_join_under(rootv, es@[j].path@);
                assert(old(fs)@.files.contains_key(f0) && under_dir(rootv, f0) && q == retarget(
                    rootv,
                    new_folder@,
                    f0,
                ));
            }
        }
    }
    Ok(join_path(new_folder.as_str(), base.as_str()))
}

} // verus!
