//! The project manifest: its data model, its canonical rendering in a
//! pretty-printed JSON interchange text, and a parser that recovers exactly
//! the rendered value. Every parser contract promises completeness: wherever
//! the input carries the canonical rendering of a value, that value comes
//! back, which yields the save/load round-trip law.
use vstd::prelude::*;

use crate::codec::{
    dec_u64, digit_char, is_digit, lemma_dec_len_u64, lemma_digit_char, lemma_matches_index,
    lemma_matches_split, matches_at, num_matches, parse_lit, parse_qstr, parse_u64, push_lit,
    push_qstr, push_u64, quoted,
};

verus! {

broadcast use lemma_matches_split;

// ---------------------------------------------------------------------------
// Data model.
// ---------------------------------------------------------------------------

/// One chapter of a project: a display title and the markdown file it lives in.
pub struct Chapter {
    pub title: String,
    pub file: String,
}

/// Editor settings kept inside the manifest. The line spacing is a fixed-point
/// value held in hundredths, rendered as `whole.fraction`.
pub struct EditorSettings {
    pub font_family: String,
    pub font_size: u16,
    pub theme: String,
    pub line_spacing_hundredths: u32,
}

/// The six canonical relative folder paths of a bundle.
pub struct StructurePaths {
    pub chapters_path: String,
    pub images_path: String,
    pub fonts_path: String,
    pub style_path: String,
    pub exports_path: String,
    pub notes_path: String,
}

/// Free-form metadata about the project.
pub struct Metadata {
    pub author: String,
    pub language: String,
    pub tags: Vec<String>,
    pub cover_image: String,
}

/// The manifest of one project bundle.
pub struct ProjectConfig {
    pub name: String,
    pub version: u8,
    pub created_at: String,
    pub updated_at: String,
    pub editor: EditorSettings,
    pub structure: StructurePaths,
    pub chapters: Vec<Chapter>,
    pub metadata: Metadata,
}

pub struct ChapterView {
    pub title: Seq<char>,
    pub file: Seq<char>,
}

pub struct EditorView {
    pub font_family: Seq<char>,
    pub font_size: u16,
    pub theme: Seq<char>,
    pub line_spacing_hundredths: u32,
}

pub struct StructureView {
    pub chapters_path: Seq<char>,
    pub images_path: Seq<char>,
    pub fonts_path: Seq<char>,
    pub style_path: Seq<char>,
    pub exports_path: Seq<char>,
    pub notes_path: Seq<char>,
}

pub struct MetadataView {
    pub author: Seq<char>,
    pub language: Seq<char>,
    pub tags: Seq<Seq<char>>,
    pub cover_image: Seq<char>,
}

pub struct ConfigView {
    pub name: Seq<char>,
    pub version: u8,
    pub created_at: Seq<char>,
    pub updated_at: Seq<char>,
    pub editor: EditorView,
    pub structure: StructureView,
    pub chapters: Seq<ChapterView>,
    pub metadata: MetadataView,
}

impl View for Chapter {
    type V = ChapterView;

    open spec fn view(&self) -> ChapterView {
        ChapterView { title: self.title@, file: self.file@ }
    }
}

impl View for EditorSettings {
    type V = EditorView;

    open spec fn view(&self) -> EditorView {
        EditorView {
            font_family: self.font_family@,
            font_size: self.font_size,
            theme: self.theme@,
            line_spacing_hundredths: self.line_spacing_hundredths,
        }
    }
}

impl View for StructurePaths {
    type V = StructureView;

    open spec fn view(&self) -> StructureView {
        StructureView {
            chapters_path: self.chapters_path@,
            images_path: self.images_path@,
            fonts_path: self.fonts_path@,
            style_path: self.style_path@,
            exports_path: self.exports_path@,
            notes_path: self.notes_path@,
        }
    }
}

impl View for Metadata {
    type V = MetadataView;

    open spec fn view(&self) -> MetadataView {
        MetadataView {
            author: self.author@,
            language: self.language@,
            tags: tags_view(self.tags@),
            cover_image: self.cover_image@,
        }
    }
}

impl View for ProjectConfig {
    type V = ConfigView;

    open spec fn view(&self) -> ConfigView {
        ConfigView {
            name: self.name@,
            version: self.version,
            created_at: self.created_at@,
            updated_at: self.updated_at@,
            editor: self.editor@,
            structure: self.structure@,
            chapters: chs_view(self.chapters@),
            metadata: self.metadata@,
        }
    }
}

/// The views of a sequence of chapters.
pub open spec fn chs_view(s: Seq<Chapter>) -> Seq<ChapterView> {
    s.map_values(|c: Chapter| c@)
}

/// The views of a sequence of tags.
pub open spec fn tags_view(s: Seq<String>) -> Seq<Seq<char>> {
    s.map_values(|t: String| t@)
}


/// The default manifest of a fresh bundle named `name`, created at `now`.
pub open spec fn default_config_view(name: Seq<char>, now: Seq<char>) -> ConfigView {
    ConfigView {
        name: name,
        version: 1,
        created_at: now,
        updated_at: now,
        editor: EditorView {
            font_family: "Inter"@,
            font_size: 16,
            theme: "light"@,
            line_spacing_hundredths: 150,
        },
        structure: StructureView {
            chapters_path: "chapters"@,
            images_path: "images"@,
            fonts_path: "fonts"@,
            style_path: "style"@,
            exports_path: "exports"@,
            notes_path: "notes"@,
        },
        chapters: Seq::<ChapterView>::empty(),
        metadata: MetadataView {
            author: Seq::<char>::empty(),
            language: "it"@,
            tags: Seq::<Seq<char>>::empty(),
            cover_image: Seq::<char>::empty(),
        },
    }
}

// ---------------------------------------------------------------------------
// Canonical rendering.
// ---------------------------------------------------------------------------

/// The rendering of the line spacing: whole part, a dot, two fraction digits.
pub open spec fn ser_spacing(h: u32) -> Seq<char> {
    dec_u64((h / 100) as u64) + (seq!['.'] + (seq![digit_char((((h % 100) / 10)) as u64)]
        + seq![digit_char(((h % 100) % 10) as u64)]))
}

/// The rendering of one chapter entry.
pub open spec fn ser_chapter(c: ChapterView) -> Seq<char> {
    "{ \"title\": "@ + (quoted(c.title) + (", \"file\": "@ + (quoted(c.file) + " }"@)))
}

/// The rendering of the chapter list after its first element, closing bracket
/// included.
pub open spec fn ser_chs_rest(cs: Seq<ChapterView>) -> Seq<char>
    decreases cs.len(),
{
    if cs.len() == 0 {
        seq![']']
    } else {
        seq![','] + (seq![' '] + (ser_chapter(cs[0]) + ser_chs_rest(cs.skip(1))))
    }
}

/// The rendering of the chapter list.
pub open spec fn ser_chapters(cs: Seq<ChapterView>) -> Seq<char> {
    if cs.len() == 0 {
        seq!['['] + seq![']']
    } else {
        seq!['['] + (ser_chapter(cs[0]) + ser_chs_rest(cs.skip(1)))
    }
}

/// The rendering of the tag list after its first element, closing bracket
/// included.
pub open spec fn ser_tags_rest(ts: Seq<Seq<char>>) -> Seq<char>
    decreases ts.len(),
{
    if ts.len() == 0 {
        seq![']']
    } else {
        seq![','] + (seq![' '] + (quoted(ts[0]) + ser_tags_rest(ts.skip(1))))
    }
}

/// The rendering of the tag list.
pub open spec fn ser_tags(ts: Seq<Seq<char>>) -> Seq<char> {
    if ts.len() == 0 {
        seq!['['] + seq![']']
    } else {
        seq!['['] + (quoted(ts[0]) + ser_tags_rest(ts.skip(1)))
    }
}

/// The rendering of the editor settings object.
pub open spec fn ser_editor(e: EditorView) -> Seq<char> {
    "{\n    \"font_family\": "@ + (quoted(e.font_family) + (",\n    \"font_size\": "@ + (dec_u64(
        e.font_size as u64,
    ) + (",\n    \"theme\": "@ + (quoted(e.theme) + (",\n    \"line_spacing\": "@ + (ser_spacing(
        e.line_spacing_hundredths,
    ) + "\n  }"@)))))))
}

/// The rendering of the folder structure object.
pub open spec fn ser_structure(s: StructureView) -> Seq<char> {
    "{\n    \"chapters_path\": "@ + (quoted(s.chapters_path) + (",\n    \"images_path\": "@
        + (quoted(s.images_path) + (",\n    \"fonts_path\": "@ + (quoted(s.fonts_path)
        + (",\n    \"style_path\": "@ + (quoted(s.style_path) + (",\n    \"exports_path\": "@
        + (quoted(s.exports_path) + (",\n    \"notes_path\": "@ + (quoted(s.notes_path)
        + "\n  }"@)))))))))))
}

/// The rendering of the metadata object.
pub open spec fn ser_metadata(m: MetadataView) -> Seq<char> {
    "{\n    \"author\": "@ + (quoted(m.author) + (",\n    \"language\": "@ + (quoted(m.language)
        + (",\n    \"tags\": "@ + (ser_tags(m.tags) + (",\n    \"cover_image\": "@ + (quoted(
        m.cover_image,
    ) + "\n  }"@)))))))
}

/// The opening fields of the rendering, up to and including the editor label.
pub open spec fn ser_head(m: ConfigView) -> Seq<char> {
    "{\n  \"name\": "@ + (quoted(m.name) + (",\n  \"version\": "@ + (dec_u64(m.version as u64)
        + (",\n  \"created_at\": "@ + (quoted(m.created_at) + (",\n  \"updated_at\": "@ + (quoted(
        m.updated_at,
    ) + ",\n  \"editor\": "@)))))))
}

/// The middle of the rendering: editor and structure objects, up to and
/// including the chapters label.
pub open spec fn ser_mid(m: ConfigView) -> Seq<char> {
    ser_editor(m.editor) + (",\n  \"structure\": "@ + (ser_structure(m.structure)
        + ",\n  \"chapters\": "@))
}

/// The end of the rendering: chapter list, metadata, closing brace.
pub open spec fn ser_tail(m: ConfigView) -> Seq<char> {
    ser_chapters(m.chapters) + (",\n  \"metadata\": "@ + (ser_metadata(m.metadata) + "\n}"@))
}

/// The canonical rendering of a whole manifest.
pub open spec fn ser_config(m: ConfigView) -> Seq<char> {
    ser_head(m) + (ser_mid(m) + ser_tail(m))
}

// ---------------------------------------------------------------------------
// Serializer.
// ---------------------------------------------------------------------------

/// Appends the line-spacing rendering.
fn push_spacing(out: &mut Vec<char>, h: u32)
    ensures
        final(out)@ == old(out)@ + ser_spacing(h),
{
    push_u64(out, (h / 100) as u64);
    out.push('.');
    let d1 = (48u8 + ((h % 100) / 10) as u8) as char;
    out.push(d1);
    let d2 = (48u8 + ((h % 100) % 10) as u8) as char;
    out.push(d2);
    proof {
        lemma_digit_char((((h % 100) / 10)) as u64);
        lemma_digit_char(((h % 100) % 10) as u64);
        assert(out@ =~= old(out)@ + ser_spacing(h));
    }
}

/// Appends one chapter entry.
fn push_chapter(out: &mut Vec<char>, c: &Chapter)
    ensures
        final(out)@ == old(out)@ + ser_chapter(c@),
{
    push_lit(out, "{ \"title\": ");
    push_qstr(out, self_str(&c.title));
    push_lit(out, ", \"file\": ");
    push_qstr(out, self_str(&c.file));
    push_lit(out, " }");
    proof {
        assert(out@ =~= old(out)@ + ser_chapter(c@));
    }
}

/// Borrows a string's slice; keeps call sites inside the emitters short.
fn self_str(s: &String) -> (r: &str)
    ensures
        r@ == s@,
{
    s.as_str()
}

/// Appends the chapter list from index `k` on, closing bracket included.
fn push_chs_rest(out: &mut Vec<char>, cs: &Vec<Chapter>, k: usize)
    requires
        k <= cs@.len(),
    ensures
        final(out)@ == old(out)@ + ser_chs_rest(chs_view(cs@).skip(k as int)),
    decreases cs@.len() - k,
{
    if k == cs.len() {
        out.push(']');
        proof {
            assert(chs_view(cs@).skip(k as int).len() == 0);
            assert(out@ =~= old(out)@ + ser_chs_rest(chs_view(cs@).skip(k as int)));
        }
    } else {
        out.push(',');
        out.push(' ');
        push_chapter(out, &cs[k]);
        push_chs_rest(out, cs, k + 1);
        proof {
            let v = chs_view(cs@);
            assert(v.skip(k as int)[0] == cs@[k as int]@);
            assert(v.skip(k as int).skip(1) =~= v.skip(k + 1));
            assert(out@ =~= old(out)@ + ser_chs_rest(v.skip(k as int)));
        }
    }
}

/// Appends the whole chapter list.
fn push_chapters(out: &mut Vec<char>, cs: &Vec<Chapter>)
    ensures
        final(out)@ == old(out)@ + ser_chapters(chs_view(cs@)),
{
    out.push('[');
    if cs.len() == 0 {
        out.push(']');
        proof {
            assert(out@ =~= old(out)@ + ser_chapters(chs_view(cs@)));
        }
    } else {
        push_chapter(out, &cs[0]);
        push_chs_rest(out, cs, 1);
        proof {
            let v = chs_view(cs@);
            assert(v[0] == cs@[0]@);
            assert(out@ =~= old(out)@ + ser_chapters(v));
        }
    }
}

/// Appends the tag list from index `k` on, closing bracket included.
fn push_tags_rest(out: &mut Vec<char>, ts: &Vec<String>, k: usize)
    requires
        k <= ts@.len(),
    ensures
        final(out)@ == old(out)@ + ser_tags_rest(tags_view(ts@).skip(k as int)),
    decreases ts@.len() - k,
{
    if k == ts.len() {
        out.push(']');
        proof {
            assert(out@ =~= old(out)@ + ser_tags_rest(tags_view(ts@).skip(k as int)));
        }
    } else {
        out.push(',');
        out.push(' ');
        push_qstr(out, self_str(&ts[k]));
        push_tags_rest(out, ts, k + 1);
        proof {
            let v = tags_view(ts@);
            assert(v.skip(k as int)[0] == ts@[k as int]@);
            assert(v.skip(k as int).skip(1) =~= v.skip(k + 1));
            assert(out@ =~= old(out)@ + ser_tags_rest(v.skip(k as int)));
        }
    }
}

/// Appends the whole tag list.
fn push_tags(out: &mut Vec<char>, ts: &Vec<String>)
    ensures
        final(out)@ == old(out)@ + ser_tags(tags_view(ts@)),
{
    out.push('[');
    if ts.len() == 0 {
        out.push(']');
        proof {
            assert(out@ =~= old(out)@ + ser_tags(tags_view(ts@)));
        }
    } else {
        push_qstr(out, self_str(&ts[0]));
        push_tags_rest(out, ts, 1);
        proof {
            let v = tags_view(ts@);
            assert(v[0] == ts@[0]@);
            assert(out@ =~= old(out)@ + ser_tags(v));
        }
    }
}

/// Appends the editor settings object.
fn push_editor(out: &mut Vec<char>, e: &EditorSettings)
    ensures
        final(out)@ == old(out)@ + ser_editor(e@),
{
    push_lit(out, "{\n    \"font_family\": ");
    push_qstr(out, self_str(&e.font_family));
    push_lit(out, ",\n    \"font_size\": ");
    push_u64(out, e.font_size as u64);
    push_lit(out, ",\n    \"theme\": ");
    push_qstr(out, self_str(&e.theme));
    push_lit(out, ",\n    \"line_spacing\": ");
    push_spacing(out, e.line_spacing_hundredths);
    push_lit(out, "\n  }");
    proof {
        assert(out@ =~= old(out)@ + ser_editor(e@));
    }
}

/// Appends the folder structure object.
fn push_structure(out: &mut Vec<char>, s: &StructurePaths)
    ensures
        final(out)@ == old(out)@ + ser_structure(s@),
{
    push_lit(out, "{\n    \"chapters_path\": ");
    push_qstr(out, self_str(&s.chapters_path));
    push_lit(out, ",\n    \"images_path\": ");
    push_qstr(out, self_str(&s.images_path));
    push_lit(out, ",\n    \"fonts_path\": ");
    push_qstr(out, self_str(&s.fonts_path));
    push_lit(out, ",\n    \"style_path\": ");
    push_qstr(out, self_str(&s.style_path));
    push_lit(out, ",\n    \"exports_path\": ");
    push_qstr(out, self_str(&s.exports_path));
    push_lit(out, ",\n    \"notes_path\": ");
    push_qstr(out, self_str(&s.notes_path));
    push_lit(out, "\n  }");
    proof {
        assert(out@ =~= old(out)@ + ser_structure(s@));
    }
}

/// Appends the metadata object.
fn push_metadata(out: &mut Vec<char>, m: &Metadata)
    ensures
        final(out)@ == old(out)@ + ser_metadata(m@),
{
    push_lit(out, "{\n    \"author\": ");
    push_qstr(out, self_str(&m.author));
    push_lit(out, ",\n    \"language\": ");
    push_qstr(out, self_str(&m.language));
    push_lit(out, ",\n    \"tags\": ");
    push_tags(out, &m.tags);
    push_lit(out, ",\n    \"cover_image\": ");
    push_qstr(out, self_str(&m.cover_image));
    push_lit(out, "\n  }");
    proof {
        assert(out@ =~= old(out)@ + ser_metadata(m@));
    }
}

/// Appends the opening fields of the rendering.
fn push_head(out: &mut Vec<char>, m: &ProjectConfig)
    ensures
        final(out)@ == old(out)@ + ser_head(m@),
{
    push_lit(out, "{\n  \"name\": ");
    push_qstr(out, self_str(&m.name));
    push_lit(out, ",\n  \"version\": ");
    push_u64(out, m.version as u64);
    push_lit(out, ",\n  \"created_at\": ");
    push_qstr(out, self_str(&m.created_at));
    push_lit(out, ",\n  \"updated_at\": ");
    push_qstr(out, self_str(&m.updated_at));
    push_lit(out, ",\n  \"editor\": ");
    proof {
        assert(out@ =~= old(out)@ + ser_head(m@));
    }
}

/// Appends the middle of the rendering.
fn push_mid(out: &mut Vec<char>, m: &ProjectConfig)
    ensures
        final(out)@ == old(out)@ + ser_mid(m@),
{
    push_editor(out, &m.editor);
    push_lit(out, ",\n  \"structure\": ");
    push_structure(out, &m.structure);
    push_lit(out, ",\n  \"chapters\": ");
    proof {
        assert(out@ =~= old(out)@ + ser_mid(m@));
    }
}

/// Appends the end of the rendering.
fn push_tail(out: &mut Vec<char>, m: &ProjectConfig)
    ensures
        final(out)@ == old(out)@ + ser_tail(m@),
{
    push_chapters(out, &m.chapters);
    push_lit(out, ",\n  \"metadata\": ");
    push_metadata(out, &m.metadata);
    push_lit(out, "\n}");
    proof {
        assert(out@ =~= old(out)@ + ser_tail(m@));
    }
}

/// Renders a manifest into its canonical interchange text.
pub fn serialize_config(m: &ProjectConfig) -> (out: Vec<char>)
    ensures
        out@ == ser_config(m@),
{
    let mut out: Vec<char> = Vec::new();
    push_head(&mut out, m);
    push_mid(&mut out, m);
    push_tail(&mut out, m);
    proof {
        assert(out@ =~= ser_config(m@));
    }
    out
}

// ---------------------------------------------------------------------------
// Parsers. Each contract promises completeness against the rendering above.
// ---------------------------------------------------------------------------

/// Parses the line-spacing rendering at `i`.
fn parse_spacing(inp: &Vec<char>, i: usize) -> (r: Option<(u32, usize)>)
    ensures
        r is Some ==> i < (r->0).1 <= inp@.len(),
        r is Some ==> matches_at(inp@, i as int, ser_spacing((r->0).0)) && (r->0).1 == i
            + ser_spacing((r->0).0).len(),
        forall|h: u32|
            matches_at(inp@, i as int, ser_spacing(h)) ==> (r is Some && (r->0).0 == h && (
            r->0).1 == i + ser_spacing(h).len()),
{
    proof {
        assert forall|h: u32| matches_at(inp@, i as int, ser_spacing(h)) implies num_matches(
            inp@,
            i as int,
            (h / 100) as u64,
        ) && inp@[i + dec_u64((h / 100) as u64).len()] == '.' && inp@[i + dec_u64(
            (h / 100) as u64,
        ).len() + 1] == digit_char(((h % 100) / 10) as u64) && inp@[i + dec_u64(
            (h / 100) as u64,
        ).len() + 2] == digit_char(((h % 100) % 10) as u64) && i + dec_u64((h / 100) as u64).len()
            + 3 == i + ser_spacing(h).len() <= inp@.len() by {
            let dl = dec_u64((h / 100) as u64).len() as int;
            lemma_matches_index(inp@, i + dl, seq!['.'], 0);
            lemma_matches_index(inp@, i + dl + 1, seq![digit_char(((h % 100) / 10) as u64)], 0);
            lemma_matches_index(inp@, i + dl + 2, seq![digit_char(((h % 100) % 10) as u64)], 0);
        }
    }
    let (w, j) = match parse_u64(inp, i) {
        None => {
            return None;
        },
        Some(x) => x,
    };
    if j >= inp.len() || inp[j] != '.' {
        return None;
    }
    if inp.len() - j < 3 {
        proof {
            assert forall|h: u32| !matches_at(inp@, i as int, ser_spacing(h)) by {
                if matches_at(inp@, i as int, ser_spacing(h)) {
                    lemma_dec_len_u64((h / 100) as u64);
                }
            }
        }
        return None;
    }
    let c1 = inp[j + 1] as u32;
    let c2 = inp[j + 2] as u32;
    if c1 < 48 || c1 > 57 || c2 < 48 || c2 > 57 {
        proof {
            assert forall|h: u32| !matches_at(inp@, i as int, ser_spacing(h)) by {
                if matches_at(inp@, i as int, ser_spacing(h)) {
                    lemma_digit_char(((h % 100) / 10) as u64);
                    lemma_digit_char(((h % 100) % 10) as u64);
                }
            }
        }
        return None;
    }
    if w > 42949672 {
        return None;
    }
    let h64: u64 = w * 100 + ((c1 - 48) as u64) * 10 + ((c2 - 48) as u64);
    if h64 > 4294967295 {
        return None;
    }
    proof {
        assert forall|h: u32| matches_at(inp@, i as int, ser_spacing(h)) implies h64 == h && j + 3
            == i + ser_spacing(h).len() by {
            lemma_digit_char(((h % 100) / 10) as u64);
            lemma_digit_char(((h % 100) % 10) as u64);
            assert(w == h / 100);
            assert(c1 - 48 == (h % 100) / 10);
            assert(c2 - 48 == (h % 100) % 10);
        }
        let hv = h64 as u32;
        let d1 = (c1 - 48) as u64;
        let d2 = (c2 - 48) as u64;
        assert(hv as u64 == h64);
        assert(h64 == w * 100 + d1 * 10 + d2);
        assert(h64 / 100 == w && h64 % 100 == d1 * 10 + d2) by (nonlinear_arith)
            requires
                h64 == w * 100 + d1 * 10 + d2,
                d1 <= 9,
                d2 <= 9,
        ;
        assert((d1 * 10 + d2) / 10 == d1 && (d1 * 10 + d2) % 10 == d2) by (nonlinear_arith)
            requires
                d1 <= 9,
                d2 <= 9,
        ;
        assert(hv / 100 == w && (hv % 100) / 10 == d1 && (hv % 100) % 10 == d2);
        crate::codec::lemma_digit_roundtrip(inp@[j + 1]);
        crate::codec::lemma_digit_roundtrip(inp@[j + 2]);
        assert(seq![digit_char(((hv % 100) / 10) as u64)] =~= inp@.subrange(j + 1, j + 2));
        assert(seq![digit_char(((hv % 100) % 10) as u64)] =~= inp@.subrange(j + 2, j + 3));
        assert(inp@.subrange(j as int, j + 1) =~= seq!['.']);
        assert(matches_at(inp@, j as int, seq!['.']));
        assert(matches_at(inp@, j + 1, seq![digit_char(((hv % 100) / 10) as u64)]));
        assert(matches_at(inp@, j + 2, seq![digit_char(((hv % 100) % 10) as u64)]));
        assert(matches_at(inp@, i as int, ser_spacing(hv)));
    }
    Some((h64 as u32, j + 3))
}

/// Parses one chapter entry at `i`.
fn parse_chapter(inp: &Vec<char>, i: usize) -> (r: Option<(Chapter, usize)>)
    ensures
        r is Some ==> i < (r->0).1 <= inp@.len(),
        r is Some ==> matches_at(inp@, i as int, ser_chapter((r->0).0@)) && (r->0).1 == i
            + ser_chapter((r->0).0@).len(),
        forall|c: ChapterView|
            matches_at(inp@, i as int, ser_chapter(c)) ==> (r is Some && (r->0).0@ == c && (
            r->0).1 == i + ser_chapter(c).len()),
{
    let p1 = match parse_lit(inp, i, "{ \"title\": ") {
        None => {
            return None;
        },
        Some(x) => x,
    };
    let (title, p2) = match parse_qstr(inp, p1) {
        None => {
            return None;
        },
        Some(x) => x,
    };
    let p3 = match parse_lit(inp, p2, ", \"file\": ") {
        None => {
            return None;
        },
        Some(x) => x,
    };
    let (file, p4) = match parse_qstr(inp, p3) {
        None => {
            return None;
        },
        Some(x) => x,
    };
    let p5 = match parse_lit(inp, p4, " }") {
        None => {
            return None;
        },
        Some(x) => x,
    };
    let c = Chapter { title, file };
    proof {
        assert(matches_at(inp@, i as int, ser_chapter(c@)));
    }
    Some((c, p5))
}

/// Parses the chapter list after its first element, closing bracket included.
#[verifier::rlimit(100)]
fn parse_chs_rest(inp: &Vec<char>, i: usize) -> (r: Option<(Vec<Chapter>, usize)>)
    ensures
        r is Some ==> i < (r->0).1 <= inp@.len(),
        r is Some ==> matches_at(inp@, i as int, ser_chs_rest(chs_view((r->0).0@))) && (r->0).1
            == i + ser_chs_rest(chs_view((r->0).0@)).len(),
        forall|cs: Seq<ChapterView>|
            matches_at(inp@, i as int, ser_chs_rest(cs)) ==> (r is Some && chs_view((r->0).0@)
                == cs && (r->0).1 == i + ser_chs_rest(cs).len()),
    decreases inp@.len() - i,
{
    proof {
        assert forall|cs: Seq<ChapterView>|
            matches_at(inp@, i as int, ser_chs_rest(cs)) implies i < inp@.len() by {
            if cs.len() == 0 {
            } else {
            }
        }
    }
    if i >= inp.len() {
        return None;
    }
    let c = inp[i];
    proof {
        assert forall|cs: Seq<ChapterView>|
            matches_at(inp@, i as int, ser_chs_rest(cs)) && cs.len() == 0 implies inp@[i as int]
            == ']' by {
            lemma_matches_index(inp@, i as int, seq![']'], 0);
        }
        assert forall|cs: Seq<ChapterView>|
            matches_at(inp@, i as int, ser_chs_rest(cs)) && cs.len() > 0 implies inp@[i as int]
            == ',' && matches_at(inp@, i + 2, ser_chapter(cs[0])) && matches_at(
            inp@,
            i + 2 + ser_chapter(cs[0]).len(),
            ser_chs_rest(cs.skip(1)),
        ) && inp@[i + 1] == ' ' by {
            lemma_matches_index(inp@, i as int, seq![','], 0);
            lemma_matches_index(inp@, i + 1, seq![' '], 0);
        }
    }
    if c == ']' {
        let v: Vec<Chapter> = Vec::new();
        proof {
            assert forall|cs: Seq<ChapterView>|
                matches_at(inp@, i as int, ser_chs_rest(cs)) implies chs_view(v@) == cs by {
                if cs.len() > 0 {
                    assert(false);
                }
                assert(chs_view(v@) =~= cs);
            }
            assert(chs_view(v@).len() == 0);
            assert(ser_chs_rest(chs_view(v@)) =~= inp@.subrange(i as int, i + 1));
            assert(matches_at(inp@, i as int, ser_chs_rest(chs_view(v@))));
        }
        return Some((v, i + 1));
    }
    if c != ',' {
        return None;
    }
    if i + 1 >= inp.len() || inp[i + 1] != ' ' {
        return None;
    }
    let (ch, j) = match parse_chapter(inp, i + 2) {
        None => {
            return None;
        },
        Some(x) => x,
    };
    let (mut v, j2) = match parse_chs_rest(inp, j) {
        None => {
            return None;
        },
        Some(x) => x,
    };
    let ghost v0 = v@;
    v.insert(0, ch);
    proof {
        assert forall|cs: Seq<ChapterView>|
            matches_at(inp@, i as int, ser_chs_rest(cs)) implies chs_view(v@) == cs && j2 == i
            + ser_chs_rest(cs).len() by {
            assert(cs.len() > 0);
            assert(chs_view(v@) =~= seq![cs[0]] + chs_view(v0));
            assert(seq![cs[0]] + cs.skip(1) =~= cs);
        }
        let cv = chs_view(v@);
        assert(cv.len() > 0 && cv[0] == ch@);
        assert(cv.skip(1) =~= chs_view(v0));
        assert(inp@.subrange(i as int, i + 1) =~= seq![',']);
        assert(inp@.subrange(i + 1, i + 2) =~= seq![' ']);
        assert(matches_at(inp@, i as int, seq![',']));
        assert(matches_at(inp@, i + 1, seq![' ']));
        assert(matches_at(inp@, i as int, ser_chs_rest(cv)));
    }
    Some((v, j2))
}

/// Parses the whole chapter list at `i`.
#[verifier::rlimit(100)]
fn parse_chapters(inp: &Vec<char>, i: usize) -> (r: Option<(Vec<Chapter>, usize)>)
    ensures
        r is Some ==> i < (r->0).1 <= inp@.len(),
        r is Some ==> matches_at(inp@, i as int, ser_chapters(chs_view((r->0).0@))) && (r->0).1
            == i + ser_chapters(chs_view((r->0).0@)).len(),
        forall|cs: Seq<ChapterView>|
            matches_at(inp@, i as int, ser_chapters(cs)) ==> (r is Some && chs_view((r->0).0@)
                == cs && (r->0).1 == i + ser_chapters(cs).len()),
{
    proof {
        assert forall|cs: Seq<ChapterView>|
            matches_at(inp@, i as int, ser_chapters(cs)) implies i + 1 < inp@.len() && inp@[
            i as int] == '[' by {
            lemma_matches_index(inp@, i as int, seq!['['], 0);
            if cs.len() == 0 {
            } else {
                reveal_strlit("{ \"title\": ");
            }
        }
        assert forall|cs: Seq<ChapterView>|
            matches_at(inp@, i as int, ser_chapters(cs)) && cs.len() == 0 implies inp@[i + 1]
            == ']' by {
            lemma_matches_index(inp@, i + 1, seq![']'], 0);
        }
        assert forall|cs: Seq<ChapterView>|
            matches_at(inp@, i as int, ser_chapters(cs)) && cs.len() > 0 implies inp@[i + 1] == '{'
            && matches_at(inp@, i + 1, ser_chapter(cs[0])) && matches_at(
            inp@,
            i + 1 + ser_chapter(cs[0]).len(),
            ser_chs_rest(cs.skip(1)),
        ) by {
            reveal_strlit("{ \"title\": ");
            lemma_matches_index(inp@, i + 1, "{ \"title\": "@, 0);
        }
    }
    if i >= inp.len() || inp[i] != '[' {
        return None;
    }
    if i + 1 >= inp.len() {
        return None;
    }
    if inp[i + 1] == ']' {
        let v: Vec<Chapter> = Vec::new();
        proof {
            assert forall|cs: Seq<ChapterView>|
                matches_at(inp@, i as int, ser_chapters(cs)) implies chs_view(v@) == cs by {
                if cs.len() > 0 {
                    assert(false);
                }
                assert(chs_view(v@) =~= cs);
            }
            assert(chs_view(v@).len() == 0);
            assert(ser_chapters(chs_view(v@)) =~= inp@.subrange(i as int, i + 2));
            assert(matches_at(inp@, i as int, ser_chapters(chs_view(v@))));
        }
        return Some((v, i + 2));
    }
    let (ch, j) = match parse_chapter(inp, i + 1) {
        None => {
            return None;
        },
        Some(x) => x,
    };
    let (mut v, j2) = match parse_chs_rest(inp, j) {
        None => {
            return None;
        },
        Some(x) => x,
    };
    let ghost v0 = v@;
    v.insert(0, ch);
    proof {
        assert forall|cs: Seq<ChapterView>|
            matches_at(inp@, i as int, ser_chapters(cs)) implies chs_view(v@) == cs && j2 == i
            + ser_chapters(cs).len() by {
            assert(cs.len() > 0);
            assert(chs_view(v@) =~= seq![cs[0]] + chs_view(v0));
            assert(seq![cs[0]] + cs.skip(1) =~= cs);
        }
        let cv = chs_view(v@);
        assert(cv.len() > 0 && cv[0] == ch@);
        assert(cv.skip(1) =~= chs_view(v0));
        assert(inp@.subrange(i as int, i + 1) =~= seq!['[']);
        assert(matches_at(inp@, i as int, seq!['[']));
        assert(matches_at(inp@, i as int, ser_chapters(cv)));
    }
    Some((v, j2))
}

/// Parses the tag list after its first element, closing bracket included.
fn parse_tags_rest(inp: &Vec<char>, i: usize) -> (r: Option<(Vec<String>, usize)>)
    ensures
        r is Some ==> i < (r->0).1 <= inp@.len(),
        r is Some ==> matches_at(inp@, i as int, ser_tags_rest(tags_view((r->0).0@))) && (r->0).1
            == i + ser_tags_rest(tags_view((r->0).0@)).len(),
        forall|ts: Seq<Seq<char>>|
            matches_at(inp@, i as int, ser_tags_rest(ts)) ==> (r is Some && tags_view((r->0).0@)
                == ts && (r->0).1 == i + ser_tags_rest(ts).len()),
    decreases inp@.len() - i,
{
    proof {
        assert forall|ts: Seq<Seq<char>>|
            matches_at(inp@, i as int, ser_tags_rest(ts)) implies i < inp@.len() by {
            if ts.len() == 0 {
            } else {
            }
        }
    }
    if i >= inp.len() {
        return None;
    }
    let c = inp[i];
    proof {
        assert forall|ts: Seq<Seq<char>>|
            matches_at(inp@, i as int, ser_tags_rest(ts)) && ts.len() == 0 implies inp@[i as int]
            == ']' by {
            lemma_matches_index(inp@, i as int, seq![']'], 0);
        }
        assert forall|ts: Seq<Seq<char>>|
            matches_at(inp@, i as int, ser_tags_rest(ts)) && ts.len() > 0 implies inp@[i as int]
            == ',' && matches_at(inp@, i + 2, quoted(ts[0])) && matches_at(
            inp@,
            i + 2 + quoted(ts[0]).len(),
            ser_tags_rest(ts.skip(1)),
        ) && inp@[i + 1] == ' ' by {
            lemma_matches_index(inp@, i as int, seq![','], 0);
            lemma_matches_index(inp@, i + 1, seq![' '], 0);
        }
    }
    if c == ']' {
        let v: Vec<String> = Vec::new();
        proof {
            assert forall|ts: Seq<Seq<char>>|
                matches_at(inp@, i as int, ser_tags_rest(ts)) implies tags_view(v@) == ts by {
                if ts.len() > 0 {
                    assert(false);
                }
                assert(tags_view(v@) =~= ts);
            }
            assert(tags_view(v@).len() == 0);
            assert(ser_tags_rest(tags_view(v@)) =~= inp@.subrange(i as int, i + 1));
            assert(matches_at(inp@, i as int, ser_tags_rest(tags_view(v@))));
        }
        return Some((v, i + 1));
    }
    if c != ',' {
        return None;
    }
    if i + 1 >= inp.len() || inp[i + 1] != ' ' {
        return None;
    }
    let (t, j) = match parse_qstr(inp, i + 2) {
        None => {
            return None;
        },
        Some(x) => x,
    };
    let (mut v, j2) = match parse_tags_rest(inp, j) {
        None => {
            return None;
        },
        Some(x) => x,
    };
    let ghost v0 = v@;
    v.insert(0, t);
    proof {
        assert forall|ts: Seq<Seq<char>>|
            matches_at(inp@, i as int, ser_tags_rest(ts)) implies tags_view(v@) == ts && j2 == i
            + ser_tags_rest(ts).len() by {
            assert(ts.len() > 0);
            assert(tags_view(v@) =~= seq![ts[0]] + tags_view(v0));
            assert(seq![ts[0]] + ts.skip(1) =~= ts);
        }
        let tv = tags_view(v@);
        assert(tv.len() > 0 && tv[0] == t@);
        assert(tv.skip(1) =~= tags_view(v0));
        assert(inp@.subrange(i as int, i + 1) =~= seq![',']);
        assert(inp@.subrange(i + 1, i + 2) =~= seq![' ']);
        assert(matches_at(inp@, i as int, seq![',']));
        assert(matches_at(inp@, i + 1, seq![' ']));
        assert(matches_at(inp@, i as int, ser_tags_rest(tv)));
    }
    Some((v, j2))
}

/// Parses the whole tag list at `i`.
fn parse_tags(inp: &Vec<char>, i: usize) -> (r: Option<(Vec<String>, usize)>)
    ensures
        r is Some ==> i < (r->0).1 <= inp@.len(),
        r is Some ==> matches_at(inp@, i as int, ser_tags(tags_view((r->0).0@))) && (r->0).1 == i
            + ser_tags(tags_view((r->0).0@)).len(),
        forall|ts: Seq<Seq<char>>|
            matches_at(inp@, i as int, ser_tags(ts)) ==> (r is Some && tags_view((r->0).0@) == ts
                && (r->0).1 == i + ser_tags(ts).len()),
{
    proof {
        assert forall|ts: Seq<Seq<char>>|
            matches_at(inp@, i as int, ser_tags(ts)) implies i + 1 < inp@.len() && inp@[i as int]
            == '[' by {
            lemma_matches_index(inp@, i as int, seq!['['], 0);
            if ts.len() == 0 {
            } else {
            }
        }
        assert forall|ts: Seq<Seq<char>>|
            matches_at(inp@, i as int, ser_tags(ts)) && ts.len() == 0 implies inp@[i + 1]
            == ']' by {
            lemma_matches_index(inp@, i + 1, seq![']'], 0);
        }
        assert forall|ts: Seq<Seq<char>>|
            matches_at(inp@, i as int, ser_tags(ts)) && ts.len() > 0 implies inp@[i + 1] == '"'
            && matches_at(inp@, i + 1, quoted(ts[0])) && matches_at(
            inp@,
            i + 1 + quoted(ts[0]).len(),
            ser_tags_rest(ts.skip(1)),
        ) by {
            lemma_matches_index(inp@, i + 1, seq!['"'], 0);
        }
    }
    if i >= inp.len() || inp[i] != '[' {
        return None;
    }
    if i + 1 >= inp.len() {
        return None;
    }
    if inp[i + 1] == ']' {
        let v: Vec<String> = Vec::new();
        proof {
            assert forall|ts: Seq<Seq<char>>|
                matches_at(inp@, i as int, ser_tags(ts)) implies tags_view(v@) == ts by {
                if ts.len() > 0 {
                    assert(false);
                }
                assert(tags_view(v@) =~= ts);
            }
            assert(tags_view(v@).len() == 0);
            assert(ser_tags(tags_view(v@)) =~= inp@.subrange(i as int, i + 2));
            assert(matches_at(inp@, i as int, ser_tags(tags_view(v@))));
        }
        return Some((v, i + 2));
    }
    let (t, j) = match parse_qstr(inp, i + 1) {
        None => {
            return None;
        },
        Some(x) => x,
    };
    let (mut v, j2) = match parse_tags_rest(inp, j) {
        None => {
            return None;
        },
        Some(x) => x,
    };
    let ghost v0 = v@;
    v.insert(0, t);
    proof {
        assert forall|ts: Seq<Seq<char>>|
            matches_at(inp@, i as int, ser_tags(ts)) implies tags_view(v@) == ts && j2 == i
            + ser_tags(ts).len() by {
            assert(ts.len() > 0);
            assert(tags_view(v@) =~= seq![ts[0]] + tags_view(v0));
            assert(seq![ts[0]] + ts.skip(1) =~= ts);
        }
        let tv = tags_view(v@);
        assert(tv.len() > 0 && tv[0] == t@);
        assert(tv.skip(1) =~= tags_view(v0));
        assert(inp@.subrange(i as int, i + 1) =~= seq!['[']);
        assert(matches_at(inp@, i as int, seq!['[']));
        assert(matches_at(inp@, i as int, ser_tags(tv)));
    }
    Some((v, j2))
}

/// Parses the editor settings object at `i`.
fn parse_editor(inp: &Vec<char>, i: usize) -> (r: Option<(EditorSettings, usize)>)
    ensures
        r is Some ==> i < (r->0).1 <= inp@.len(),
        r is Some ==> matches_at(inp@, i as int, ser_editor((r->0).0@)) && (r->0).1 == i
            + ser_editor((r->0).0@).len(),
        forall|e: EditorView|
            matches_at(inp@, i as int, ser_editor(e)) ==> (r is Some && (r->0).0@ == e && (
            r->0).1 == i + ser_editor(e).len()),
{
    let p1 = match parse_lit(inp, i, "{\n    \"font_family\": ") {
        None => {
            return None;
        },
        Some(x) => x,
    };
    let (font_family, p2) = match parse_qstr(inp, p1) {
        None => {
            return None;
        },
        Some(x) => x,
    };
    let p3 = match parse_lit(inp, p2, ",\n    \"font_size\": ") {
        None => {
            return None;
        },
        Some(x) => x,
    };
    proof {
        assert forall|e: EditorView| matches_at(inp@, i as int, ser_editor(e)) implies num_matches(
            inp@,
            p3 as int,
            e.font_size as u64,
        ) by {
            reveal_strlit(",\n    \"theme\": ");
            lemma_matches_index(
                inp@,
                p3 + dec_u64(e.font_size as u64).len(),
                ",\n    \"theme\": "@,
                0,
            );
        }
    }
    let (fs64, p4) = match parse_u64(inp, p3) {
        None => {
            return None;
        },
        Some(x) => x,
    };
    if fs64 > 65535 {
        return None;
    }
    let p5 = match parse_lit(inp, p4, ",\n    \"theme\": ") {
        None => {
            return None;
        },
        Some(x) => x,
    };
    let (theme, p6) = match parse_qstr(inp, p5) {
        None => {
            return None;
        },
        Some(x) => x,
    };
    let p7 = match parse_lit(inp, p6, ",\n    \"line_spacing\": ") {
        None => {
            return None;
        },
        Some(x) => x,
    };
    let (h, p8) = match parse_spacing(inp, p7) {
        None => {
            return None;
        },
        Some(x) => x,
    };
    let p9 = match parse_lit(inp, p8, "\n  }") {
        None => {
            return None;
        },
        Some(x) => x,
    };
    let e = EditorSettings { font_family, font_size: fs64 as u16, theme, line_spacing_hundredths: h };
    proof {
        assert((fs64 as u16) as u64 == fs64);
        assert(matches_at(inp@, i as int, ser_editor(e@)));
    }
    Some((e, p9))
}

/// Parses the folder structure object at `i`.
fn parse_structure(inp: &Vec<char>, i: usize) -> (r: Option<(StructurePaths, usize)>)
    ensures
        r is Some ==> i < (r->0).1 <= inp@.len(),
        r is Some ==> matches_at(inp@, i as int, ser_structure((r->0).0@)) && (r->0).1 == i
            + ser_structure((r->0).0@).len(),
        forall|s: StructureView|
            matches_at(inp@, i as int, ser_structure(s)) ==> (r is Some && (r->0).0@ == s && (
            r->0).1 == i + ser_structure(s).len()),
{
    let p1 = match parse_lit(inp, i, "{\n    \"chapters_path\": ") {
        None => {
            return None;
        },
        Some(x) => x,
    };
    let (chapters_path, p2) = match parse_qstr(inp, p1) {
        None => {
            return None;
        },
        Some(x) => x,
    };
    let p3 = match parse_lit(inp, p2, ",\n    \"images_path\": ") {
        None => {
            return None;
        },
        Some(x) => x,
    };
    let (images_path, p4) = match parse_qstr(inp, p3) {
        None => {
            return None;
        },
        Some(x) => x,
    };
    let p5 = match parse_lit(inp, p4, ",\n    \"fonts_path\": ") {
        None => {
            return None;
        },
        Some(x) => x,
    };
    let (fonts_path, p6) = match parse_qstr(inp, p5) {
        None => {
            return None;
        },
        Some(x) => x,
    };
    let p7 = match parse_lit(inp, p6, ",\n    \"style_path\": ") {
        None => {
            return None;
        },
        Some(x) => x,
    };
    let (style_path, p8) = match parse_qstr(inp, p7) {
        None => {
            return None;
        },
        Some(x) => x,
    };
    let p9 = match parse_lit(inp, p8, ",\n    \"exports_path\": ") {
        None => {
            return None;
        },
        Some(x) => x,
    };
    let (exports_path, p10) = match parse_qstr(inp, p9) {
        None => {
            return None;
        },
        Some(x) => x,
    };
    let p11 = match parse_lit(inp, p10, ",\n    \"notes_path\": ") {
        None => {
            return None;
        },
        Some(x) => x,
    };
    let (notes_path, p12) = match parse_qstr(inp, p11) {
        None => {
            return None;
        },
        Some(x) => x,
    };
    let p13 = match parse_lit(inp, p12, "\n  }") {
        None => {
            return None;
        },
        Some(x) => x,
    };
    let sp = StructurePaths {
        chapters_path,
        images_path,
        fonts_path,
        style_path,
        exports_path,
        notes_path,
    };
    proof {
        assert(matches_at(inp@, i as int, ser_structure(sp@)));
    }
    Some((sp, p13))
}

/// Parses the metadata object at `i`.
fn parse_metadata(inp: &Vec<char>, i: usize) -> (r: Option<(Metadata, usize)>)
    ensures
        r is Some ==> i < (r->0).1 <= inp@.len(),
        r is Some ==> matches_at(inp@, i as int, ser_metadata((r->0).0@)) && (r->0).1 == i
            + ser_metadata((r->0).0@).len(),
        forall|m: MetadataView|
            matches_at(inp@, i as int, ser_metadata(m)) ==> (r is Some && (r->0).0@ == m && (
            r->0).1 == i + ser_metadata(m).len()),
{
    let p1 = match parse_lit(inp, i, "{\n    \"author\": ") {
        None => {
            return None;
        },
        Some(x) => x,
    };
    let (author, p2) = match parse_qstr(inp, p1) {
        None => {
            return None;
        },
        Some(x) => x,
    };
    let p3 = match parse_lit(inp, p2, ",\n    \"language\": ") {
        None => {
            return None;
        },
        Some(x) => x,
    };
    let (language, p4) = match parse_qstr(inp, p3) {
        None => {
            return None;
        },
        Some(x) => x,
    };
    let p5 = match parse_lit(inp, p4, ",\n    \"tags\": ") {
        None => {
            return None;
        },
        Some(x) => x,
    };
    let (tags, p6) = match parse_tags(inp, p5) {
        None => {
            return None;
        },
        Some(x) => x,
    };
    let p7 = match parse_lit(inp, p6, ",\n    \"cover_image\": ") {
        None => {
            return None;
        },
        Some(x) => x,
    };
    let (cover_image, p8) = match parse_qstr(inp, p7) {
        None => {
            return None;
        },
        Some(x) => x,
    };
    let p9 = match parse_lit(inp, p8, "\n  }") {
        None => {
            return None;
        },
        Some(x) => x,
    };
    let md = Metadata { author, language, tags, cover_image };
    proof {
        assert(matches_at(inp@, i as int, ser_metadata(md@)));
    }
    Some((md, p9))
}

/// Parses the opening fields at `i`.
fn parse_head(inp: &Vec<char>, i: usize) -> (r: Option<((String, u8, String, String), usize)>)
    ensures
        r is Some ==> i < (r->0).1 <= inp@.len(),
        r is Some ==> forall|m: ConfigView|
            (m.name == ((r->0).0).0@ && m.version == ((r->0).0).1 && m.created_at == ((
            r->0).0).2@ && m.updated_at == ((r->0).0).3@) ==> (matches_at(
                inp@,
                i as int,
                ser_head(m),
            ) && (r->0).1 == i + ser_head(m).len()),
        forall|m: ConfigView|
            matches_at(inp@, i as int, ser_head(m)) ==> (r is Some && ((r->0).0).0@ == m.name && ((
            r->0).0).1 == m.version && ((r->0).0).2@ == m.created_at && ((r->0).0).3@
                == m.updated_at && (r->0).1 == i + ser_head(m).len()),
{
    let p1 = match parse_lit(inp, i, "{\n  \"name\": ") {
        None => {
            return None;
        },
        Some(x) => x,
    };
    let (name, p2) = match parse_qstr(inp, p1) {
        None => {
            return None;
        },
        Some(x) => x,
    };
    let p3 = match parse_lit(inp, p2, ",\n  \"version\": ") {
        None => {
            return None;
        },
        Some(x) => x,
    };
    proof {
        assert forall|m: ConfigView| matches_at(inp@, i as int, ser_head(m)) implies num_matches(
            inp@,
            p3 as int,
            m.version as u64,
        ) by {
            reveal_strlit(",\n  \"created_at\": ");
            lemma_matches_index(
                inp@,
                p3 + dec_u64(m.version as u64).len(),
                ",\n  \"created_at\": "@,
                0,
            );
        }
    }
    let (v64, p4) = match parse_u64(inp, p3) {
        None => {
            return None;
        },
        Some(x) => x,
    };
    if v64 > 255 {
        return None;
    }
    let p5 = match parse_lit(inp, p4, ",\n  \"created_at\": ") {
        None => {
            return None;
        },
        Some(x) => x,
    };
    let (created_at, p6) = match parse_qstr(inp, p5) {
        None => {
            return None;
        },
        Some(x) => x,
    };
    let p7 = match parse_lit(inp, p6, ",\n  \"updated_at\": ") {
        None => {
            return None;
        },
        Some(x) => x,
    };
    let (updated_at, p8) = match parse_qstr(inp, p7) {
        None => {
            return None;
        },
        Some(x) => x,
    };
    let p9 = match parse_lit(inp, p8, ",\n  \"editor\": ") {
        None => {
            return None;
        },
        Some(x) => x,
    };
    proof {
        assert forall|m: ConfigView|
            (m.name == name@ && m.version == v64 as u8 && m.created_at == created_at@
                && m.updated_at == updated_at@) implies (matches_at(inp@, i as int, ser_head(m))
            && p9 == i + ser_head(m).len()) by {
            assert(m.version as u64 == v64);
            assert(matches_at(inp@, i as int, ser_head(m)));
        }
    }
    Some(((name, v64 as u8, created_at, updated_at), p9))
}

/// Assembling the opening fields, the middle, and the tail pieces of a
/// rendering, in order and covering the whole input, gives exactly the
/// rendering of the manifest.
#[verifier::rlimit(100)]
proof fn lemma_assemble_config(
    inp: Seq<char>,
    m: ConfigView,
    q1: int,
    q2: int,
    q3: int,
    q4: int,
    q5: int,
    q6: int,
)
    requires
        matches_at(inp, 0, ser_head(m)),
        q1 == ser_head(m).len(),
        matches_at(inp, q1, ser_mid(m)),
        q2 == q1 + ser_mid(m).len(),
        matches_at(inp, q2, ser_chapters(m.chapters)),
        q3 == q2 + ser_chapters(m.chapters).len(),
        matches_at(inp, q3, ",\n  \"metadata\": "@),
        q4 == q3 + ",\n  \"metadata\": "@.len(),
        matches_at(inp, q4, ser_metadata(m.metadata)),
        q5 == q4 + ser_metadata(m.metadata).len(),
        matches_at(inp, q5, "\n}"@),
        q6 == q5 + "\n}"@.len(),
        q6 == inp.len(),
    ensures
        inp == ser_config(m),
{
    lemma_matches_split(inp, q4, ser_metadata(m.metadata), "\n}"@);
    lemma_matches_split(inp, q3, ",\n  \"metadata\": "@, ser_metadata(m.metadata) + "\n}"@);
    lemma_matches_split(
        inp,
        q2,
        ser_chapters(m.chapters),
        ",\n  \"metadata\": "@ + (ser_metadata(m.metadata) + "\n}"@),
    );
    assert(matches_at(inp, q2, ser_tail(m)));
    lemma_matches_split(inp, q1, ser_mid(m), ser_tail(m));
    lemma_matches_split(inp, 0, ser_head(m), ser_mid(m) + ser_tail(m));
    assert(matches_at(inp, 0, ser_config(m)));
    assert(inp.subrange(0, inp.len() as int) =~= inp);
    assert(inp =~= ser_config(m));
}

/// Parses the opening fields, the editor object and the structure object:
/// everything of the rendering before the chapter list.
#[verifier::rlimit(100)]
fn parse_front(inp: &Vec<char>) -> (r: Option<
    ((String, u8, String, String), EditorSettings, StructurePaths, usize),
>)
    ensures
        r is Some ==> 0 < (r->0).3 <= inp@.len(),
        r is Some ==> forall|m: ConfigView|
            (m.name == ((r->0).0).0@ && m.version == ((r->0).0).1 && m.created_at == ((
            r->0).0).2@ && m.updated_at == ((r->0).0).3@ && m.editor == (r->0).1@ && m.structure
                == (r->0).2@) ==> (matches_at(inp@, 0, ser_head(m)) && matches_at(
                inp@,
                ser_head(m).len() as int,
                ser_mid(m),
            ) && (r->0).3 == ser_head(m).len() + ser_mid(m).len()),
        forall|m: ConfigView|
            (matches_at(inp@, 0, ser_head(m)) && matches_at(
                inp@,
                ser_head(m).len() as int,
                ser_mid(m),
            )) ==> (r is Some && ((r->0).0).0@ == m.name && ((r->0).0).1 == m.version && ((
            r->0).0).2@ == m.created_at && ((r->0).0).3@ == m.updated_at && (r->0).1@ == m.editor
                && (r->0).2@ == m.structure && (r->0).3 == ser_head(m).len() + ser_mid(m).len()),
{
    let (head, p1) = match parse_head(inp, 0) {
        None => {
            return None;
        },
        Some(x) => x,
    };
    let (editor, p2) = match parse_editor(inp, p1) {
        None => {
            return None;
        },
        Some(x) => x,
    };
    let p3 = match parse_lit(inp, p2, ",\n  \"structure\": ") {
        None => {
            return None;
        },
        Some(x) => x,
    };
    let (structure, p4) = match parse_structure(inp, p3) {
        None => {
            return None;
        },
        Some(x) => x,
    };
    let p5 = match parse_lit(inp, p4, ",\n  \"chapters\": ") {
        None => {
            return None;
        },
        Some(x) => x,
    };
    proof {
        assert forall|m: ConfigView|
            (m.name == head.0@ && m.version == head.1 && m.created_at == head.2@ && m.updated_at
                == head.3@ && m.editor == editor@ && m.structure == structure@) implies (
        matches_at(inp@, 0, ser_head(m)) && matches_at(inp@, ser_head(m).len() as int, ser_mid(m))
            && p5 == ser_head(m).len() + ser_mid(m).len()) by {
            assert(matches_at(inp@, 0, ser_head(m)));
            lemma_matches_split(
                inp@,
                p3 as int,
                ser_structure(m.structure),
                ",\n  \"chapters\": "@,
            );
            lemma_matches_split(
                inp@,
                p2 as int,
                ",\n  \"structure\": "@,
                ser_structure(m.structure) + ",\n  \"chapters\": "@,
            );
            lemma_matches_split(
                inp@,
                p1 as int,
                ser_editor(m.editor),
                ",\n  \"structure\": "@ + (ser_structure(m.structure) + ",\n  \"chapters\": "@),
            );
            assert(matches_at(inp@, p1 as int, ser_mid(m)));
        }
    }
    Some((head, editor, structure, p5))
}

/// Parses a whole manifest text: exactly the canonical renderings are
/// accepted, and each parses to exactly its value.
#[verifier::rlimit(100)]
pub fn parse_config(inp: &Vec<char>) -> (r: Option<ProjectConfig>)
    ensures
        r is Some ==> inp@ == ser_config(r->0@),
        forall|m: ConfigView| inp@ == ser_config(m) ==> (r is Some && r->0@ == m),
{
    proof {
        assert forall|m: ConfigView| inp@ == ser_config(m) implies matches_at(
            inp@,
            0,
            ser_config(m),
        ) by {
            assert(inp@.subrange(0, inp@.len() as int) =~= inp@);
        }
    }
    let (head, editor, structure, p5) = match parse_front(inp) {
        None => {
            return None;
        },
        Some(x) => x,
    };
    let (chapters, p6) = match parse_chapters(inp, p5) {
        None => {
            return None;
        },
        Some(x) => x,
    };
    let p7 = match parse_lit(inp, p6, ",\n  \"metadata\": ") {
        None => {
            return None;
        },
        Some(x) => x,
    };
    let (metadata, p8) = match parse_metadata(inp, p7) {
        None => {
            return None;
        },
        Some(x) => x,
    };
    let p9 = match parse_lit(inp, p8, "\n}") {
        None => {
            return None;
        },
        Some(x) => x,
    };
    if p9 != inp.len() {
        return None;
    }
    let (name, version, created_at, updated_at) = head;
    let cfg = ProjectConfig {
        name,
        version,
        created_at,
        updated_at,
        editor,
        structure,
        chapters,
        metadata,
    };
    proof {
        assert(matches_at(inp@, 0, ser_head(cfg@)));
        assert(matches_at(inp@, ser_head(cfg@).len() as int, ser_mid(cfg@)));
        lemma_assemble_config(
            inp@,
            cfg@,
            ser_head(cfg@).len() as int,
            p5 as int,
            p6 as int,
            p7 as int,
            p8 as int,
            p9 as int,
        );
    }
    Some(cfg)
}

} // verus!
