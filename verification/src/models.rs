//! The catalog of speech models: one recommended file per model, rows for
//! the window, languages for the filter, and the bookkeeping of downloads.

use vstd::prelude::*;
use crate::numbers::{digits_of, push_digits};
use crate::text::{append, chars_of, eq_chars, join, join_chars, string_of, trim_end_by, one_of};

verus! {

/// One file of a model in the catalog.
pub struct CatalogFile {
    pub filename: String,
    pub quant: String,
    pub size_bytes: u64,
    pub sha256: String,
}

/// One model of the catalog.
pub struct CatalogModel {
    pub id: String,
    pub revision: String,
    pub name: String,
    pub description: String,
    pub languages: Vec<String>,
    pub language_count: u32,
    pub accuracy_score: u32,
    pub speed_score: u32,
    pub speed_note: String,
    pub streaming: bool,
    pub translate: bool,
    pub default_quant: String,
    pub files: Vec<CatalogFile>,
}

/// A language of the catalog: its code, Russian name, and how many models
/// know it.
pub struct CatalogLanguage {
    pub code: String,
    pub name: String,
    pub models: u32,
}

/// The catalog: download mirrors, languages, models.
pub struct Catalog {
    pub mirrors: Vec<String>,
    pub languages: Vec<CatalogLanguage>,
    pub models: Vec<CatalogModel>,
}

/// A row of the catalog for the window.
pub struct ModelRow {
    pub id: String,
    pub name: String,
    pub description: String,
    pub languages: String,
    pub language_codes: Vec<String>,
    pub language_count: u32,
    pub accuracy: u32,
    pub speed: u32,
    pub note: String,
    pub streaming: bool,
    pub translate: bool,
    pub filename: String,
    pub size_bytes: u64,
    pub downloaded: bool,
    pub active: bool,
    pub progress: Option<u8>,
}

/// A language for the filter: code, Russian name, how many models know it.
pub struct LanguageRow {
    pub code: String,
    pub name: String,
    pub models: u32,
}

/// The catalog with the downloads going on: percent and stop flag per file.
pub struct ModelStore {
    pub catalog: Catalog,
    pub progress: Vec<(String, u8)>,
    pub cancel: Vec<(String, bool)>,
}

// --- the recommended file -------------------------------------------------------------------

/// The position of the first file of `files` (from `i` on) with the given
/// quantisation.
pub open spec fn quant_from(files: Seq<CatalogFile>, quant: Seq<char>, i: int) -> Option<int>
    decreases files.len() - i,
{
    if i < 0 || i >= files.len() {
        None
    } else if files[i].quant@ == quant {
        Some(i)
    } else {
        quant_from(files, quant, i + 1)
    }
}

/// The recommended file of a model: the one with its default quantisation,
/// else the first.
pub open spec fn default_file_spec(m: CatalogModel) -> Option<int> {
    match quant_from(m.files@, m.default_quant@, 0) {
        Some(i) => Some(i),
        None => if m.files@.len() > 0 { Some(0) } else { None },
    }
}

/// The position of the recommended file of a model.
pub fn default_file(m: &CatalogModel) -> (r: Option<usize>)
    ensures
        match r {
            Some(i) => default_file_spec(*m) == Some(i as int) && i < m.files@.len(),
            None => default_file_spec(*m) is None,
        },
{
    let q = chars_of(m.default_quant.as_str());
    let mut i: usize = 0;
    while i < m.files.len()
        invariant
            i <= m.files@.len(),
            q@ == m.default_quant@,
            quant_from(m.files@, m.default_quant@, 0) == quant_from(m.files@, m.default_quant@, i as int),
        decreases m.files.len() - i,
    {
        if eq_chars(&chars_of(m.files[i].quant.as_str()), &q) {
            return Some(i);
        }
        i += 1;
    }
    if m.files.len() > 0 {
        Some(0)
    } else {
        None
    }
}

// --- languages -------------------------------------------------------------------------------

/// `x` put into a list sorted by falling count, after every row with the
/// same count.
pub open spec fn insert_by_count(s: Seq<(Seq<char>, Seq<char>, u32)>, x: (Seq<char>, Seq<char>, u32)) -> Seq<
    (Seq<char>, Seq<char>, u32),
>
    decreases s.len(),
{
    if s.len() == 0 {
        seq![x]
    } else if s[0].2 < x.2 {
        seq![x] + s
    } else {
        seq![s[0]] + insert_by_count(s.drop_first(), x)
    }
}

/// Rows sorted by falling count; rows with the same count keep their order.
pub open spec fn sort_by_count(s: Seq<(Seq<char>, Seq<char>, u32)>) -> Seq<(Seq<char>, Seq<char>, u32)>
    decreases s.len(),
{
    if s.len() == 0 {
        s
    } else {
        insert_by_count(sort_by_count(s.drop_last()), s.last())
    }
}

/// Language rows as plain values.
pub open spec fn language_rows_view(v: Seq<LanguageRow>) -> Seq<(Seq<char>, Seq<char>, u32)> {
    v.map_values(|r: LanguageRow| (r.code@, r.name@, r.models))
}

/// The catalog's languages as plain values.
pub open spec fn catalog_languages_view(v: Seq<CatalogLanguage>) -> Seq<(Seq<char>, Seq<char>, u32)> {
    v.map_values(|r: CatalogLanguage| (r.code@, r.name@, r.models))
}

proof fn lemma_insert_by_count(s: Seq<(Seq<char>, Seq<char>, u32)>, x: (Seq<char>, Seq<char>, u32), j: int)
    requires
        0 <= j <= s.len(),
        forall|k: int| 0 <= k < j ==> (#[trigger] s[k]).2 >= x.2,
        j == s.len() || s[j].2 < x.2,
    ensures
        insert_by_count(s, x) == s.insert(j, x),
    decreases s.len(),
{
    if s.len() > 0 {
        if j > 0 {
            assert forall|k: int| 0 <= k < j - 1 implies (#[trigger] s.drop_first()[k]).2 >= x.2 by {
                assert(s.drop_first()[k] == s[k + 1]);
            }
            if j < s.len() {
                assert(s.drop_first()[j - 1] == s[j]);
            }
            lemma_insert_by_count(s.drop_first(), x, j - 1);
            assert(seq![s[0]] + s.drop_first().insert(j - 1, x) =~= s.insert(j, x));
        } else {
            assert(seq![x] + s =~= s.insert(0, x));
        }
    } else {
        assert(seq![x] =~= s.insert(0, x));
    }
}

// --- the rows of the catalog ------------------------------------------------------------------

/// A row of the catalog as plain values.
pub struct ModelRowView {
    pub id: Seq<char>,
    pub name: Seq<char>,
    pub description: Seq<char>,
    pub languages: Seq<char>,
    pub language_codes: Seq<Seq<char>>,
    pub language_count: u32,
    pub accuracy: u32,
    pub speed: u32,
    pub note: Seq<char>,
    pub streaming: bool,
    pub translate: bool,
    pub filename: Seq<char>,
    pub size_bytes: u64,
    pub downloaded: bool,
    pub active: bool,
    pub progress: Option<u8>,
}

/// Texts as plain values.
pub open spec fn strings_view(v: Seq<String>) -> Seq<Seq<char>> {
    v.map_values(|s: String| s@)
}

/// Rows as plain values.
pub open spec fn rows_view(v: Seq<ModelRow>) -> Seq<ModelRowView> {
    v.map_values(
        |r: ModelRow|
            ModelRowView {
                id: r.id@,
                name: r.name@,
                description: r.description@,
                languages: r.languages@,
                language_codes: strings_view(r.language_codes@),
                language_count: r.language_count,
                accuracy: r.accuracy,
                speed: r.speed,
                note: r.note@,
                streaming: r.streaming,
                translate: r.translate,
                filename: r.filename@,
                size_bytes: r.size_bytes,
                downloaded: r.downloaded,
                active: r.active,
                progress: r.progress,
            },
    )
}

/// What a row says of a model's languages: their number when there are
/// several, else the codes.
pub open spec fn languages_text(m: CatalogModel) -> Seq<char> {
    if m.language_count > 1 {
        "языков: "@ + digits_of(m.language_count as nat)
    } else {
        join(strings_view(m.languages@), ", "@)
    }
}

/// Whether a file of that name and size is among the files on disk.
pub open spec fn on_disk_has(on_disk: Seq<(String, u64)>, name: Seq<char>, size: u64) -> bool {
    exists|k: int| 0 <= k < on_disk.len() && (#[trigger] on_disk[k]).0@ == name && on_disk[k].1 == size
}

/// The percent of the download of a file, if one is going on.
pub open spec fn progress_of(progress: Seq<(String, u8)>, name: Seq<char>) -> Option<u8>
    decreases progress.len(),
{
    if progress.len() == 0 {
        None
    } else if progress[0].0@ == name {
        Some(progress[0].1)
    } else {
        progress_of(progress.drop_first(), name)
    }
}

/// The row of a model whose recommended file is `f`.
pub open spec fn row_of(
    m: CatalogModel,
    f: CatalogFile,
    on_disk: Seq<(String, u64)>,
    active: Option<Seq<char>>,
    progress: Seq<(String, u8)>,
) -> ModelRowView {
    ModelRowView {
        id: m.id@,
        name: m.name@,
        description: m.description@,
        languages: languages_text(m),
        language_codes: strings_view(m.languages@),
        language_count: m.language_count,
        accuracy: m.accuracy_score,
        speed: m.speed_score,
        note: m.speed_note@,
        streaming: m.streaming,
        translate: m.translate,
        filename: f.filename@,
        size_bytes: f.size_bytes,
        downloaded: on_disk_has(on_disk, f.filename@, f.size_bytes),
        active: active == Some(f.filename@),
        progress: progress_of(progress, f.filename@),
    }
}

/// The rows of the models that have a file, in the catalog's order.
pub open spec fn catalog_rows(
    models: Seq<CatalogModel>,
    on_disk: Seq<(String, u64)>,
    active: Option<Seq<char>>,
    progress: Seq<(String, u8)>,
) -> Seq<ModelRowView>
    decreases models.len(),
{
    if models.len() == 0 {
        Seq::empty()
    } else {
        let rest = catalog_rows(models.drop_last(), on_disk, active, progress);
        let m = models.last();
        match default_file_spec(m) {
            Some(i) => rest.push(row_of(m, m.files@[i], on_disk, active, progress)),
            None => rest,
        }
    }
}

/// The accuracy the catalog gives a model id: that of the last model with
/// the id, 0 when there is none.
pub open spec fn accuracy_by_id(models: Seq<CatalogModel>, id: Seq<char>) -> u32
    decreases models.len(),
{
    if models.len() == 0 {
        0
    } else if models.last().id@ == id {
        models.last().accuracy_score
    } else {
        accuracy_by_id(models.drop_last(), id)
    }
}

/// Whether row `a` goes before row `b`: the active one first, then the
/// downloaded ones, then by falling accuracy.
pub open spec fn row_before(models: Seq<CatalogModel>, a: ModelRowView, b: ModelRowView) -> bool {
    if a.active != b.active {
        a.active
    } else if a.downloaded != b.downloaded {
        a.downloaded
    } else {
        accuracy_by_id(models, a.id) > accuracy_by_id(models, b.id)
    }
}

/// `x` put into sorted rows after every row it does not go before.
pub open spec fn insert_row(models: Seq<CatalogModel>, s: Seq<ModelRowView>, x: ModelRowView) -> Seq<ModelRowView>
    decreases s.len(),
{
    if s.len() == 0 {
        seq![x]
    } else if row_before(models, x, s[0]) {
        seq![x] + s
    } else {
        seq![s[0]] + insert_row(models, s.drop_first(), x)
    }
}

/// Rows sorted: active, downloaded, accuracy; equal rows keep their order.
pub open spec fn sort_rows(models: Seq<CatalogModel>, s: Seq<ModelRowView>) -> Seq<ModelRowView>
    decreases s.len(),
{
    if s.len() == 0 {
        s
    } else {
        insert_row(models, sort_rows(models, s.drop_last()), s.last())
    }
}

proof fn lemma_insert_row(models: Seq<CatalogModel>, s: Seq<ModelRowView>, x: ModelRowView, j: int)
    requires
        0 <= j <= s.len(),
        forall|k: int| 0 <= k < j ==> !row_before(models, x, #[trigger] s[k]),
        j == s.len() || row_before(models, x, s[j]),
    ensures
        insert_row(models, s, x) == s.insert(j, x),
    decreases s.len(),
{
    if s.len() > 0 {
        if j > 0 {
            assert forall|k: int| 0 <= k < j - 1 implies !row_before(models, x, #[trigger] s.drop_first()[k]) by {
                assert(s.drop_first()[k] == s[k + 1]);
            }
            if j < s.len() {
                assert(s.drop_first()[j - 1] == s[j]);
            }
            lemma_insert_row(models, s.drop_first(), x, j - 1);
            assert(seq![s[0]] + s.drop_first().insert(j - 1, x) =~= s.insert(j, x));
        } else {
            assert(seq![x] + s =~= s.insert(0, x));
        }
    } else {
        assert(seq![x] =~= s.insert(0, x));
    }
}

/// A copy of a list of texts.
fn copy_strings(v: &Vec<String>) -> (r: Vec<String>)
    ensures
        strings_view(r@) == strings_view(v@),
{
    let mut r: Vec<String> = Vec::new();
    let mut i: usize = 0;
    while i < v.len()
        invariant
            i <= v@.len(),
            r@.len() == i,
            forall|k: int| 0 <= k < i ==> #[trigger] r@[k]@ == v@[k]@,
        decreases v.len() - i,
    {
        r.push(v[i].clone());
        i += 1;
    }
    proof {
        assert(strings_view(r@) =~= strings_view(v@));
    }
    r
}

/// The languages text of a model's row.
fn languages_line(m: &CatalogModel) -> (r: String)
    ensures
        r@ == languages_text(*m),
{
    if m.language_count > 1 {
        let mut out = chars_of("языков: ");
        push_digits(m.language_count as u64, &mut out);
        string_of(&out)
    } else {
        let mut parts: Vec<Vec<char>> = Vec::new();
        let mut i: usize = 0;
        while i < m.languages.len()
            invariant
                i <= m.languages@.len(),
                parts@.len() == i,
                forall|k: int| 0 <= k < i ==> #[trigger] parts@[k]@ == m.languages@[k]@,
            decreases m.languages.len() - i,
        {
            parts.push(chars_of(m.languages[i].as_str()));
            i += 1;
        }
        let r = join_chars(&parts, &chars_of(", "));
        proof {
            assert(parts@.map_values(|x: Vec<char>| x@) =~= strings_view(m.languages@));
        }
        string_of(&r)
    }
}

/// Whether a file of that name and size is on disk.
fn on_disk(files: &[(String, u64)], name: &String, size: u64) -> (r: bool)
    ensures
        r == on_disk_has(files@, name@, size),
{
    let n = chars_of(name.as_str());
    let mut i: usize = 0;
    while i < files.len()
        invariant
            i <= files@.len(),
            n@ == name@,
            forall|k: int| 0 <= k < i ==> !((#[trigger] files@[k]).0@ == name@ && files@[k].1 == size),
        decreases files.len() - i,
    {
        if files[i].1 == size && eq_chars(&chars_of(files[i].0.as_str()), &n) {
            return true;
        }
        i += 1;
    }
    false
}

/// The percent of the download of a file, if one is going on.
fn progress_for(progress: &Vec<(String, u8)>, name: &String) -> (r: Option<u8>)
    ensures
        r == progress_of(progress@, name@),
{
    let n = chars_of(name.as_str());
    let mut p: usize = 0;
    proof {
        assert(progress@.skip(0) =~= progress@);
    }
    while p < progress.len()
        invariant
            p <= progress@.len(),
            n@ == name@,
            progress_of(progress@, name@) == progress_of(progress@.skip(p as int), name@),
        decreases progress.len() - p,
    {
        proof {
            assert(progress@.skip(p as int).drop_first() =~= progress@.skip(p + 1));
        }
        if eq_chars(&chars_of(progress[p].0.as_str()), &n) {
            return Some(progress[p].1);
        }
        p += 1;
    }
    None
}

/// The accuracy the catalog gives a model id.
fn accuracy_for(models: &Vec<CatalogModel>, id: &String) -> (r: u32)
    ensures
        r == accuracy_by_id(models@, id@),
{
    let n = chars_of(id.as_str());
    let mut i: usize = models.len();
    proof {
        assert(models@.take(models@.len() as int) =~= models@);
    }
    while i > 0
        invariant
            i <= models@.len(),
            n@ == id@,
            accuracy_by_id(models@, id@) == accuracy_by_id(models@.take(i as int), id@),
        decreases i,
    {
        proof {
            assert(models@.take(i as int).drop_last() =~= models@.take(i - 1));
        }
        if eq_chars(&chars_of(models[i - 1].id.as_str()), &n) {
            return models[i - 1].accuracy_score;
        }
        i -= 1;
    }
    0
}

impl ModelStore {
    /// A store over a catalog, with no downloads going on.
    pub fn new(catalog: Catalog) -> (r: Self)
        ensures
            r.catalog == catalog,
            r.progress@.len() == 0,
            r.cancel@.len() == 0,
            r.wf(),
    {
        ModelStore { catalog, progress: Vec::new(), cancel: Vec::new() }
    }

    /// The catalog's languages, those most models know first; languages
    /// known by as many models keep the catalog's order.
    pub fn languages(&self) -> (r: Vec<LanguageRow>)
        ensures
            language_rows_view(r@) == sort_by_count(catalog_languages_view(self.catalog.languages@)),
    {
        let langs = &self.catalog.languages;
        let ghost lv = catalog_languages_view(langs@);
        let mut rows: Vec<LanguageRow> = Vec::new();
        let mut i: usize = 0;
        while i < langs.len()
            invariant
                i <= langs@.len(),
                lv == catalog_languages_view(langs@),
                language_rows_view(rows@) == sort_by_count(lv.take(i as int)),
            decreases langs.len() - i,
        {
            proof {
                assert(lv.take(i + 1).drop_last() =~= lv.take(i as int));
                assert(lv.take(i + 1).last() == lv[i as int]);
            }
            let row = LanguageRow {
                code: langs[i].code.clone(),
                name: langs[i].name.clone(),
                models: langs[i].models,
            };
            let mut j: usize = 0;
            while j < rows.len() && rows[j].models >= row.models
                invariant
                    j <= rows@.len(),
                    forall|k: int| 0 <= k < j ==> (#[trigger] language_rows_view(rows@)[k]).2 >= row.models,
                decreases rows.len() - j,
            {
                j += 1;
            }
            let ghost before = language_rows_view(rows@);
            let ghost rv = (row.code@, row.name@, row.models);
            proof {
                lemma_insert_by_count(before, rv, j as int);
            }
            rows.insert(j, row);
            proof {
                assert(language_rows_view(rows@) =~= before.insert(j as int, rv));
            }
            i += 1;
        }
        proof {
            assert(lv.take(langs@.len() as int) =~= lv);
        }
        rows
    }

    /// The catalog's rows for the window: one per model with a file (its
    /// recommended one), marked downloaded when a file of that name and size
    /// is among `on_disk`, active when it is `active`, with the percent of
    /// its download if one is going on; the active row first, then the
    /// downloaded ones, then by falling accuracy.
    pub fn rows(&self, on_disk_files: &[(String, u64)], active: Option<&str>) -> (r: Vec<ModelRow>)
        ensures
            rows_view(r@) == sort_rows(
                self.catalog.models@,
                catalog_rows(
                    self.catalog.models@,
                    on_disk_files@,
                    match active {
                        Some(a) => Some(a@),
                        None => None,
                    },
                    self.progress@,
                ),
            ),
    {
        let models = &self.catalog.models;
        let ghost av: Option<Seq<char>> = match active {
            Some(a) => Some(a@),
            None => None,
        };
        let mut rows: Vec<ModelRow> = Vec::new();
        let mut i: usize = 0;
        while i < models.len()
            invariant
                i <= models@.len(),
                models == &self.catalog.models,
                av == (match active {
                    Some(a) => Some(a@),
                    None => None,
                }),
                rows_view(rows@) == sort_rows(
                    models@,
                    catalog_rows(models@.take(i as int), on_disk_files@, av, self.progress@),
                ),
            decreases models.len() - i,
        {
            proof {
                assert(models@.take(i + 1).drop_last() =~= models@.take(i as int));
                assert(models@.take(i + 1).last() == models@[i as int]);
            }
            let m = &models[i];
            match default_file(m) {
                Some(fi) => {
                    let f = &m.files[fi];
                    let is_active = match active {
                        Some(a) => eq_chars(&chars_of(a), &chars_of(f.filename.as_str())),
                        None => false,
                    };
                    let progress = progress_for(&self.progress, &f.filename);
                    let row = ModelRow {
                        id: m.id.clone(),
                        name: m.name.clone(),
                        description: m.description.clone(),
                        languages: languages_line(m),
                        language_codes: copy_strings(&m.languages),
                        language_count: m.language_count,
                        accuracy: m.accuracy_score,
                        speed: m.speed_score,
                        note: m.speed_note.clone(),
                        streaming: m.streaming,
                        translate: m.translate,
                        filename: f.filename.clone(),
                        size_bytes: f.size_bytes,
                        downloaded: on_disk(on_disk_files, &f.filename, f.size_bytes),
                        active: is_active,
                        progress,
                    };
                    let ghost rv = row_of(*m, m.files@[fi as int], on_disk_files@, av, self.progress@);
                    proof {
                        assert(row.id@ == rv.id);
                        assert(row.languages@ == rv.languages);
                        assert(strings_view(row.language_codes@) == rv.language_codes);
                        assert(row.filename@ == rv.filename);
                        assert(row.downloaded == rv.downloaded);
                        assert(row.active == rv.active);
                        assert(row.progress == rv.progress);
                    }
                    let acc = accuracy_for(models, &row.id);
                    let mut j: usize = 0;
                    while j < rows.len() && !(
                        (is_active && !rows[j].active)
                        || (is_active == rows[j].active && row.downloaded && !rows[j].downloaded)
                        || (is_active == rows[j].active && row.downloaded == rows[j].downloaded
                            && acc > accuracy_for(models, &rows[j].id)))
                        invariant
                            j <= rows@.len(),
                            acc == accuracy_by_id(models@, rv.id),
                            rv.active == is_active,
                            rv.downloaded == row.downloaded,
                            forall|k: int| 0 <= k < j ==> !row_before(models@, rv, #[trigger] rows_view(rows@)[k]),
                        decreases rows.len() - j,
                    {
                        j += 1;
                    }
                    let ghost before = rows_view(rows@);
                    proof {
                        lemma_insert_row(models@, before, rv, j as int);
                    }
                    rows.insert(j, row);
                    proof {
                        assert(rows_view(rows@) =~= before.insert(j as int, rv));
                        let cat = catalog_rows(models@.take(i as int), on_disk_files@, av, self.progress@);
                        assert(catalog_rows(models@.take(i + 1), on_disk_files@, av, self.progress@) == cat.push(
                            rv,
                        ));
                        assert(cat.push(rv).drop_last() =~= cat);
                    }
                },
                None => {
                    proof {
                        assert(catalog_rows(models@.take(i + 1), on_disk_files@, av, self.progress@)
                            == catalog_rows(models@.take(i as int), on_disk_files@, av, self.progress@));
                    }
                },
            }
            i += 1;
        }
        proof {
            assert(models@.take(models@.len() as int) =~= models@);
        }
        rows
    }

    /// Asks the download of a file to stop, if one is going on.
    pub fn cancel_download(&mut self, filename: &str)
        ensures
            final(self).catalog == old(self).catalog,
            final(self).progress@ == old(self).progress@,
            final(self).cancel@.len() == old(self).cancel@.len(),
            forall|k: int|
                0 <= k < old(self).cancel@.len() ==> (#[trigger] final(self).cancel@[k]).0@ == old(
                    self,
                ).cancel@[k].0@ && final(self).cancel@[k].1 == (old(self).cancel@[k].1 || old(
                    self,
                ).cancel@[k].0@ == filename@),
            old(self).wf() ==> final(self).wf(),
    {
        let f = chars_of(filename);
        let mut i: usize = 0;
        while i < self.cancel.len()
            invariant
                i <= self.cancel@.len(),
                f@ == filename@,
                self.catalog == old(self).catalog,
                self.progress@ == old(self).progress@,
                self.cancel@.len() == old(self).cancel@.len(),
                forall|k: int|
                    0 <= k < i ==> (#[trigger] self.cancel@[k]).0@ == old(self).cancel@[k].0@ && self.cancel@[k].1
                        == (old(self).cancel@[k].1 || old(self).cancel@[k].0@ == filename@),
                forall|k: int| i <= k < self.cancel@.len() ==> #[trigger] self.cancel@[k] == old(self).cancel@[k],
            decreases self.cancel.len() - i,
        {
            if eq_chars(&chars_of(self.cancel[i].0.as_str()), &f) {
                let name = self.cancel[i].0.clone();
                self.cancel.set(i, (name, true));
            }
            i += 1;
        }
        proof {
            let c = self.cancel@;
            let c0 = old(self).cancel@;
            assert forall|k: int| 0 <= k < c.len() implies (#[trigger] c[k]).0@ == c0[k].0@ by {}
            if old(self).wf() {
                assert forall|a: int, b: int| 0 <= a < b < c.len() implies (#[trigger] c[a]).0@ != (#[trigger] c[b]).0@ by {
                    assert(c[a].0@ == c0[a].0@ && c[b].0@ == c0[b].0@);
                }
                assert forall|x: Seq<char>| #[trigger] has_key(c, x) implies has_key(self.progress@, x) by {
                    let k = choose|k: int| 0 <= k < c.len() && (#[trigger] c[k]).0@ == x;
                    assert(c0[k].0@ == x);
                    assert(has_key(c0, x));
                }
            }
        }
    }
}

// --- downloads --------------------------------------------------------------------------

/// The percent shown for a download: done of the size, at most 99 until
/// the file is checked.
pub open spec fn percent_of(done: u64, size: u64) -> u8 {
    let total: int = if size > 0 { size as int } else { 1 };
    let p = done as int * 100 / total;
    (if p > 99 { 99 } else { p }) as u8
}

/// The percent shown for a download.
pub fn download_percent(done: u64, size: u64) -> (r: u8)
    ensures
        r == percent_of(done, size),
{
    let total: u128 = if size > 0 { size as u128 } else { 1 };
    let p: u128 = (done as u128) * 100 / total;
    if p > 99 { 99 } else { p as u8 }
}

/// Where a file can be had, in order: Hugging Face, then each mirror.
pub open spec fn urls_spec(m: CatalogModel, f: CatalogFile, mirrors: Seq<String>) -> Seq<Seq<char>> {
    seq!["https://huggingface.co/"@ + m.id@ + "/resolve/"@ + m.revision@ + seq!['/'] + f.filename@]
        + mirrors.map_values(|mirror: String| trim_end_by(mirror@, one_of(seq!['/'])) + seq!['/'] + f.filename@)
}

/// Where a file can be had, in order.
pub fn urls(m: &CatalogModel, f: &CatalogFile, mirrors: &Vec<String>) -> (r: Vec<String>)
    ensures
        r@.map_values(|u: String| u@) == urls_spec(*m, *f, mirrors@),
{
    let mut first = chars_of("https://huggingface.co/");
    append(&mut first, &chars_of(m.id.as_str()));
    append(&mut first, &chars_of("/resolve/"));
    append(&mut first, &chars_of(m.revision.as_str()));
    first.push('/');
    append(&mut first, &chars_of(f.filename.as_str()));
    let mut out: Vec<String> = Vec::new();
    out.push(string_of(&first));
    let mut i: usize = 0;
    while i < mirrors.len()
        invariant
            i <= mirrors@.len(),
            out@.len() == i + 1,
            out@[0]@ == "https://huggingface.co/"@ + m.id@ + "/resolve/"@ + m.revision@ + seq!['/'] + f.filename@,
            forall|k: int|
                0 <= k < i ==> (#[trigger] out@[k + 1])@ == trim_end_by(mirrors@[k]@, one_of(seq!['/'])) + seq!['/']
                    + f.filename@,
        decreases mirrors.len() - i,
    {
        let mut u = crate::text::trim_end_set(&chars_of(mirrors[i].as_str()), &['/']);
        proof {
            assert(['/']@ =~= seq!['/']);
        }
        u.push('/');
        append(&mut u, &chars_of(f.filename.as_str()));
        out.push(string_of(&u));
        i += 1;
    }
    proof {
        let spec = urls_spec(*m, *f, mirrors@);
        let got = out@.map_values(|u: String| u@);
        assert forall|k: int| 0 <= k < out@.len() implies #[trigger] got[k] == spec[k] by {
            if k > 0 {
                assert(out@[(k - 1) + 1]@ == trim_end_by(mirrors@[k - 1]@, one_of(seq!['/'])) + seq!['/']
                    + f.filename@);
            }
        }
        assert(got =~= spec);
    }
    out
}

fn find_model(models: &Vec<CatalogModel>, id: &str) -> (r: Option<usize>)
    ensures
        match r {
            Some(i) => model_from(models@, id@, 0) == Some(i as int) && i < models@.len(),
            None => model_from(models@, id@, 0) is None,
        },
{
    let c = chars_of(id);
    let mut i: usize = 0;
    while i < models.len()
        invariant
            i <= models@.len(),
            c@ == id@,
            model_from(models@, id@, 0) == model_from(models@, id@, i as int),
        decreases models.len() - i,
    {
        if eq_chars(&chars_of(models[i].id.as_str()), &c) {
            return Some(i);
        }
        i += 1;
    }
    None
}

/// Why a download could not start.
#[derive(Debug, Clone, Copy, PartialEq, Eq, Structural)]
pub enum ModelError {
    /// No model with that id in the catalog.
    NotFound,
    /// The model has no files.
    NoFiles,
}

/// A download to run: the model, its recommended file, where to get it.
pub struct DownloadJob {
    pub model: usize,
    pub file: usize,
    pub urls: Vec<String>,
}

/// The first model of the catalog with the given id.
pub open spec fn model_from(models: Seq<CatalogModel>, id: Seq<char>, i: int) -> Option<int>
    decreases models.len() - i,
{
    if i < 0 || i >= models.len() {
        None
    } else if models[i].id@ == id {
        Some(i)
    } else {
        model_from(models, id, i + 1)
    }
}

/// Whether a key is among the keys of a list of pairs.
pub open spec fn has_key<T>(list: Seq<(String, T)>, key: Seq<char>) -> bool {
    exists|k: int| 0 <= k < list.len() && (#[trigger] list[k]).0@ == key
}

/// No key appears twice, as in a map.
pub open spec fn keys_distinct<T>(l: Seq<(String, T)>) -> bool {
    forall|i: int, j: int| 0 <= i < j < l.len() ==> (#[trigger] l[i]).0@ != (#[trigger] l[j]).0@
}

impl ModelStore {
    /// The downloads are kept as maps: each file at most once in each list,
    /// and a stop flag only for a file that has a percent.
    pub open spec fn wf(&self) -> bool {
        &&& keys_distinct(self.progress@)
        &&& keys_distinct(self.cancel@)
        &&& forall|k: Seq<char>| #[trigger] has_key(self.cancel@, k) ==> has_key(self.progress@, k)
    }
}

proof fn lemma_has_key_push<T>(s: Seq<(String, T)>, e: (String, T), x: Seq<char>)
    ensures
        has_key(s.push(e), x) <==> (has_key(s, x) || e.0@ == x),
{
    if has_key(s, x) {
        let k = choose|k: int| 0 <= k < s.len() && (#[trigger] s[k]).0@ == x;
        assert(s.push(e)[k] == s[k]);
    }
    if e.0@ == x {
        assert(s.push(e)[s.len() as int] == e);
    }
    if has_key(s.push(e), x) {
        let k = choose|k: int| 0 <= k < s.push(e).len() && (#[trigger] s.push(e)[k]).0@ == x;
        if k < s.len() {
            assert(s[k] == s.push(e)[k]);
        }
    }
}

proof fn lemma_distinct_push<T>(s: Seq<(String, T)>, e: (String, T))
    requires
        keys_distinct(s),
        !has_key(s, e.0@),
    ensures
        keys_distinct(s.push(e)),
{
    let t = s.push(e);
    assert forall|i: int, j: int| 0 <= i < j < t.len() implies (#[trigger] t[i]).0@ != (#[trigger] t[j]).0@ by {
        assert(t[i] == s[i]);
        if j < s.len() {
            assert(t[j] == s[j]);
        } else {
            assert(t[j] == e);
            if s[i].0@ == e.0@ {
                assert(has_key(s, e.0@));
            }
        }
    }
}

proof fn lemma_without_keys<T>(l: Seq<(String, T)>, key: Seq<char>)
    ensures
        forall|x: Seq<char>| #[trigger] has_key(without_key(l, key), x) <==> (has_key(l, x) && x != key),
        keys_distinct(l) ==> keys_distinct(without_key(l, key)),
    decreases l.len(),
{
    if l.len() == 0 {
        assert forall|x: Seq<char>| #[trigger] has_key(without_key(l, key), x) <==> (has_key(l, x) && x != key) by {
            if has_key(l, x) {
                let k = choose|k: int| 0 <= k < l.len() && (#[trigger] l[k]).0@ == x;
            }
        }
    } else {
        let d = l.drop_last();
        let e = l.last();
        lemma_without_keys(d, key);
        assert(l =~= d.push(e));
        let rest = without_key(d, key);
        assert forall|x: Seq<char>| #[trigger] has_key(without_key(l, key), x) <==> (has_key(l, x) && x != key) by {
            lemma_has_key_push(d, e, x);
            lemma_has_key_push(rest, e, x);
        }
        if keys_distinct(l) {
            assert forall|i: int, j: int| 0 <= i < j < d.len() implies (#[trigger] d[i]).0@ != (#[trigger] d[j]).0@ by {
                assert(d[i] == l[i] && d[j] == l[j]);
            }
            if e.0@ != key {
                if has_key(rest, e.0@) {
                    assert(has_key(d, e.0@));
                    let k = choose|k: int| 0 <= k < d.len() && (#[trigger] d[k]).0@ == e.0@;
                    assert(l[k] == d[k]);
                    assert(l[l.len() - 1] == e);
                }
                lemma_distinct_push(rest, e);
            }
        }
    }
}

proof fn lemma_update_keys<T>(l: Seq<(String, T)>, i: int, e: (String, T))
    requires
        0 <= i < l.len(),
        l[i].0@ == e.0@,
    ensures
        forall|x: Seq<char>| #[trigger] has_key(l.update(i, e), x) <==> has_key(l, x),
        keys_distinct(l) ==> keys_distinct(l.update(i, e)),
{
    let u = l.update(i, e);
    assert forall|k: int| 0 <= k < l.len() implies (#[trigger] u[k]).0@ == l[k].0@ by {}
    assert forall|x: Seq<char>| #[trigger] has_key(u, x) <==> has_key(l, x) by {
        if has_key(u, x) {
            let k = choose|k: int| 0 <= k < u.len() && (#[trigger] u[k]).0@ == x;
            assert(l[k].0@ == x);
        }
        if has_key(l, x) {
            let k = choose|k: int| 0 <= k < l.len() && (#[trigger] l[k]).0@ == x;
            assert(u[k].0@ == x);
        }
    }
    if keys_distinct(l) {
        assert forall|a: int, b: int| 0 <= a < b < u.len() implies (#[trigger] u[a]).0@ != (#[trigger] u[b]).0@ by {
            assert(u[a].0@ == l[a].0@ && u[b].0@ == l[b].0@);
        }
    }
}

fn find_key<T>(list: &Vec<(String, T)>, key: &[char]) -> (r: Option<usize>)
    ensures
        match r {
            Some(i) => i < list@.len() && list@[i as int].0@ == key@ && forall|k: int|
                0 <= k < i ==> (#[trigger] list@[k]).0@ != key@,
            None => !has_key(list@, key@),
        },
{
    let mut i: usize = 0;
    while i < list.len()
        invariant
            i <= list@.len(),
            forall|k: int| 0 <= k < i ==> (#[trigger] list@[k]).0@ != key@,
        decreases list.len() - i,
    {
        if eq_chars(&chars_of(list[i].0.as_str()), key) {
            return Some(i);
        }
        i += 1;
    }
    None
}

/// The list without the entries of a key, the others in their order.
pub open spec fn without_key<T>(l: Seq<(String, T)>, key: Seq<char>) -> Seq<(String, T)>
    decreases l.len(),
{
    if l.len() == 0 {
        Seq::empty()
    } else {
        let rest = without_key(l.drop_last(), key);
        if l.last().0@ == key {
            rest
        } else {
            rest.push(l.last())
        }
    }
}

/// Looking up a key after an entry is pushed: the earlier entries still win.
proof fn lemma_progress_push(l: Seq<(String, u8)>, e: (String, u8), name: Seq<char>)
    ensures
        progress_of(l.push(e), name) == match progress_of(l, name) {
            Some(v) => Some(v),
            None => if e.0@ == name {
                Some(e.1)
            } else {
                None
            },
        },
    decreases l.len(),
{
    if l.len() > 0 {
        assert(l.push(e).drop_first() =~= l.drop_first().push(e));
        assert(l.push(e)[0] == l[0]);
        lemma_progress_push(l.drop_first(), e, name);
    } else {
        assert(l.push(e).drop_first() =~= Seq::<(String, u8)>::empty());
        assert(l.push(e)[0] == e);
        assert(progress_of(Seq::<(String, u8)>::empty(), name) is None);
    }
}

/// Looking up a key after the first entry of key `e.0` is replaced by `e`.
proof fn lemma_progress_update(l: Seq<(String, u8)>, i: int, e: (String, u8), name: Seq<char>)
    requires
        0 <= i < l.len(),
        l[i].0@ == e.0@,
        forall|k: int| 0 <= k < i ==> (#[trigger] l[k]).0@ != e.0@,
    ensures
        progress_of(l.update(i, e), name) == if name == e.0@ {
            Some(e.1)
        } else {
            progress_of(l, name)
        },
    decreases i,
{
    if i > 0 {
        assert(l.update(i, e).drop_first() =~= l.drop_first().update(i - 1, e));
        assert forall|k: int| 0 <= k < i - 1 implies (#[trigger] l.drop_first()[k]).0@ != e.0@ by {
            assert(l.drop_first()[k] == l[k + 1]);
        }
        lemma_progress_update(l.drop_first(), i - 1, e, name);
        assert(l[0].0@ != e.0@);
    } else {
        assert(l.update(i, e).drop_first() =~= l.drop_first());
    }
}

/// A key that no entry has has no value.
proof fn lemma_absent(l: Seq<(String, u8)>, key: Seq<char>)
    requires
        !has_key(l, key),
    ensures
        progress_of(l, key) is None,
    decreases l.len(),
{
    if l.len() > 0 {
        assert(l[0].0@ != key);
        assert forall|k: int| 0 <= k < l.drop_first().len() implies (#[trigger] l.drop_first()[k]).0@ != key by {
            assert(l.drop_first()[k] == l[k + 1]);
        }
        lemma_absent(l.drop_first(), key);
    }
}

/// Dropping the entries of one key leaves every other key's value.
proof fn lemma_progress_without(l: Seq<(String, u8)>, key: Seq<char>, name: Seq<char>)
    ensures
        progress_of(without_key(l, key), name) == if name == key {
            None
        } else {
            progress_of(l, name)
        },
    decreases l.len(),
{
    if l.len() > 0 {
        let d = l.drop_last();
        lemma_progress_without(d, key, name);
        assert(l =~= d.push(l.last()));
        lemma_progress_push(d, l.last(), name);
        if l.last().0@ != key {
            lemma_progress_push(without_key(d, key), l.last(), name);
        }
    }
}

/// A list without a key that it does not hold is the list itself.
proof fn lemma_without_absent<T>(l: Seq<(String, T)>, key: Seq<char>)
    requires
        !has_key(l, key),
    ensures
        without_key(l, key) == l,
    decreases l.len(),
{
    if l.len() > 0 {
        let d = l.drop_last();
        assert forall|k: int| 0 <= k < d.len() implies (#[trigger] d[k]).0@ != key by {
            assert(d[k] == l[k]);
        }
        lemma_without_absent(d, key);
        assert(l.last().0@ != key) by {
            assert(l[l.len() - 1] == l.last());
        }
        assert(d.push(l.last()) =~= l);
    }
}

/// A download that begins and then is over leaves the bookkeeping as it
/// was: `begin_download` appends the file's entry to lists that did not
/// hold it, and `finish_download` takes every entry of that file away.
pub proof fn law_download_leaves_no_trace<T>(l: Seq<(String, T)>, e: (String, T))
    requires
        !has_key(l, e.0@),
    ensures
        without_key(l.push(e), e.0@) == l,
{
    assert(l.push(e).drop_last() =~= l);
    lemma_without_absent(l, e.0@);
}

/// A copy of the list without the entries of a key.
fn drop_key<T: Copy>(l: &Vec<(String, T)>, key: &[char]) -> (r: Vec<(String, T)>)
    ensures
        r@ == without_key(l@, key@),
{
    let mut out: Vec<(String, T)> = Vec::new();
    let mut i: usize = 0;
    while i < l.len()
        invariant
            i <= l@.len(),
            out@ == without_key(l@.take(i as int), key@),
        decreases l.len() - i,
    {
        proof {
            assert(l@.take(i + 1).drop_last() =~= l@.take(i as int));
        }
        if !eq_chars(&chars_of(l[i].0.as_str()), key) {
            out.push((l[i].0.clone(), l[i].1));
        }
        i += 1;
    }
    proof {
        assert(l@.take(l@.len() as int) =~= l@);
    }
    out
}

impl ModelStore {
    /// Starts the download of a model's recommended file: refused for a
    /// model not in the catalog or without files; `None` when that file is
    /// already downloading; otherwise the file is marked as downloading at
    /// 0 percent, not asked to stop, and the job says where to get it.
    pub fn begin_download(&mut self, model_id: &str) -> (r: Result<Option<DownloadJob>, ModelError>)
        ensures
            final(self).catalog == old(self).catalog,
            old(self).wf() ==> final(self).wf(),
            match model_from(old(self).catalog.models@, model_id@, 0) {
                None => r matches Err(ModelError::NotFound),
                Some(mi) => match default_file_spec(old(self).catalog.models@[mi]) {
                    None => r matches Err(ModelError::NoFiles),
                    Some(fi) => {
                        let name = old(self).catalog.models@[mi].files@[fi].filename@;
                        if has_key(old(self).progress@, name) {
                            r matches Ok(None) && final(self).progress@ == old(self).progress@
                                && final(self).cancel@ == old(self).cancel@
                        } else {
                            &&& r matches Ok(Some(job))
                            &&& job.model == mi && job.file == fi
                            &&& job.urls@.map_values(|u: String| u@) == urls_spec(
                                old(self).catalog.models@[mi],
                                old(self).catalog.models@[mi].files@[fi],
                                old(self).catalog.mirrors@,
                            )
                            &&& final(self).progress@.len() == old(self).progress@.len() + 1
                            &&& final(self).progress@.last().0@ == name
                            &&& final(self).progress@.last().1 == 0
                            &&& final(self).progress@.drop_last() == old(self).progress@
                            &&& final(self).cancel@.len() == old(self).cancel@.len() + 1
                            &&& final(self).cancel@.last().0@ == name
                            &&& !final(self).cancel@.last().1
                            &&& final(self).cancel@.drop_last() == old(self).cancel@
                        }
                    },
                },
            },
    {
        let mi = match find_model(&self.catalog.models, model_id) {
            Some(i) => i,
            None => return Err(ModelError::NotFound),
        };
        let fi = match default_file(&self.catalog.models[mi]) {
            Some(fi) => fi,
            None => return Err(ModelError::NoFiles),
        };
        let name = chars_of(self.catalog.models[mi].files[fi].filename.as_str());
        if find_key(&self.progress, &name).is_some() {
            return Ok(None);
        }
        let job_urls = urls(&self.catalog.models[mi], &self.catalog.models[mi].files[fi], &self.catalog.mirrors);
        let ghost p0 = self.progress@;
        let ghost c0 = self.cancel@;
        self.progress.push((string_of(&name), 0));
        self.cancel.push((string_of(&name), false));
        proof {
            assert(self.progress@.drop_last() =~= p0);
            assert(self.cancel@.drop_last() =~= c0);
            assert(self.progress@ == p0.push(self.progress@.last()));
            assert(self.cancel@ == c0.push(self.cancel@.last()));
            if old(self).wf() {
                lemma_distinct_push(p0, self.progress@.last());
                if has_key(c0, name@) {
                    assert(has_key(p0, name@));
                }
                lemma_distinct_push(c0, self.cancel@.last());
                assert forall|k: Seq<char>| #[trigger] has_key(self.cancel@, k) implies has_key(self.progress@, k) by {
                    lemma_has_key_push(c0, self.cancel@.last(), k);
                    lemma_has_key_push(p0, self.progress@.last(), k);
                }
            }
        }
        Ok(Some(DownloadJob { model: mi, file: fi, urls: job_urls }))
    }

    /// Records the percent of a file's download.
    pub fn set_download_progress(&mut self, filename: &str, pct: u8)
        ensures
            final(self).catalog == old(self).catalog,
            old(self).wf() ==> final(self).wf(),
            final(self).cancel@ == old(self).cancel@,
            progress_of(final(self).progress@, filename@) == Some(pct),
            forall|name: Seq<char>|
                name != filename@ ==> #[trigger] progress_of(final(self).progress@, name) == progress_of(
                    old(self).progress@,
                    name,
                ),
    {
        let f = chars_of(filename);
        let ghost p0 = self.progress@;
        match find_key(&self.progress, &f) {
            Some(i) => {
                let name = self.progress[i].0.clone();
                self.progress.set(i, (name, pct));
                proof {
                    assert forall|n: Seq<char>| true implies progress_of(self.progress@, n) == if n == filename@ {
                        Some(pct)
                    } else {
                        progress_of(p0, n)
                    } by {
                        lemma_progress_update(p0, i as int, self.progress@[i as int], n);
                    }
                    assert(progress_of(self.progress@, filename@) == Some(pct));
                    lemma_update_keys(p0, i as int, self.progress@[i as int]);
                    assert(self.progress@ == p0.update(i as int, self.progress@[i as int]));
                }
            },
            None => {
                let e = (string_of(&f), pct);
                self.progress.push(e);
                proof {
                    assert forall|n: Seq<char>| true implies progress_of(self.progress@, n) == if n == filename@ {
                        Some(pct)
                    } else {
                        progress_of(p0, n)
                    } by {
                        lemma_progress_push(p0, e, n);
                        lemma_absent(p0, filename@);
                    }
                    assert(progress_of(self.progress@, filename@) == Some(pct));
                    assert(self.progress@ == p0.push(e));
                    if old(self).wf() {
                        lemma_distinct_push(p0, e);
                        assert forall|k: Seq<char>| #[trigger] has_key(self.cancel@, k) implies has_key(self.progress@, k) by {
                            lemma_has_key_push(p0, e, k);
                        }
                    }
                }
            },
        }
    }

    /// A download is over: its percent and stop flag go; every other
    /// file keeps its own.
    pub fn finish_download(&mut self, filename: &str)
        ensures
            final(self).catalog == old(self).catalog,
            final(self).progress@ == without_key(old(self).progress@, filename@),
            final(self).cancel@ == without_key(old(self).cancel@, filename@),
            old(self).wf() ==> final(self).wf(),
            forall|name: Seq<char>|
                #[trigger] progress_of(final(self).progress@, name) == if name == filename@ {
                    None
                } else {
                    progress_of(old(self).progress@, name)
                },
    {
        let f = chars_of(filename);
        let kept = drop_key(&self.progress, &f);
        let flags = drop_key(&self.cancel, &f);
        let ghost old_progress = self.progress@;
        let ghost old_cancel = self.cancel@;
        self.progress = kept;
        self.cancel = flags;
        proof {
            lemma_without_keys(old_progress, filename@);
            lemma_without_keys(old_cancel, filename@);
            assert forall|name: Seq<char>| true implies #[trigger] progress_of(self.progress@, name) == if name
                == filename@ {
                None
            } else {
                progress_of(old_progress, name)
            } by {
                lemma_progress_without(old_progress, filename@, name);
            }
        }
    }
}

/// Whether a stop was asked for a file: the first entry of that file says so.
pub open spec fn cancel_of(cancel: Seq<(String, bool)>, name: Seq<char>) -> bool
    decreases cancel.len(),
{
    if cancel.len() == 0 {
        false
    } else if cancel[0].0@ == name {
        cancel[0].1
    } else {
        cancel_of(cancel.drop_first(), name)
    }
}

impl ModelStore {
    /// Whether the download of a file was asked to stop.
    pub fn download_cancelled(&self, filename: &str) -> (r: bool)
        ensures
            r == cancel_of(self.cancel@, filename@),
    {
        let f = chars_of(filename);
        let mut i: usize = 0;
        proof {
            assert(self.cancel@.skip(0) =~= self.cancel@);
        }
        while i < self.cancel.len()
            invariant
                i <= self.cancel@.len(),
                f@ == filename@,
                cancel_of(self.cancel@, filename@) == cancel_of(self.cancel@.skip(i as int), filename@),
            decreases self.cancel.len() - i,
        {
            proof {
                assert(self.cancel@.skip(i as int)[0] == self.cancel@[i as int]);
                assert(self.cancel@.skip(i as int).drop_first() =~= self.cancel@.skip(i + 1));
            }
            if eq_chars(&chars_of(self.cancel[i].0.as_str()), &f) {
                return self.cancel[i].1;
            }
            i += 1;
        }
        false
    }
}

/// A downloaded file is kept only when the download ended well, its size
/// is the catalog's, and its checksum matches.
pub fn download_accepted(exited_ok: bool, len: u64, size: u64, checksum_ok: bool) -> (r: bool)
    ensures
        r == (exited_ok && len == size && checksum_ok),
{
    exited_ok && len == size && checksum_ok
}

// --- news of the upstream catalog ----------------------------------------------------------

/// The names of the models of the upstream catalog, in order, leaving out
/// items without one.
pub open spec fn upstream_names(items: Seq<Seq<char>>) -> Seq<Seq<char>>
    decreases items.len(),
{
    if items.len() == 0 {
        Seq::empty()
    } else {
        let rest = upstream_names(items.drop_last());
        match crate::sync::reply::json_text_field(items.last(), "name"@) {
            Some(n) => rest.push(n),
            None => rest,
        }
    }
}

/// The names not among the known ones, in order.
pub open spec fn fresh_names(names: Seq<Seq<char>>, known: Seq<Seq<char>>) -> Seq<Seq<char>>
    decreases names.len(),
{
    if names.len() == 0 {
        Seq::empty()
    } else {
        let rest = fresh_names(names.drop_last(), known);
        if known.contains(names.last()) {
            rest
        } else {
            rest.push(names.last())
        }
    }
}

/// The news about the upstream catalog: the first three models it has that
/// this one does not know, if any; nothing when the reply has no list of
/// models.
pub open spec fn catalog_news_spec(upstream: Seq<char>, known: Seq<Seq<char>>) -> Option<Seq<char>> {
    match crate::sync::reply::json_array_field(upstream, "models"@) {
        None => None,
        Some(items) => {
            let fresh = fresh_names(upstream_names(items), known);
            if fresh.len() == 0 {
                None
            } else {
                Some(
                    "В каталоге Handy появились новые модели: "@ + join(
                        fresh.take(if fresh.len() < 3 { fresh.len() as int } else { 3 }),
                        ", "@,
                    ) + ". Они приедут со следующей версией приложения"@,
                )
            }
        },
    }
}

fn known_has(known: &[String], name: &Vec<char>) -> (r: bool)
    ensures
        r == known@.map_values(|k: String| k@).contains(name@),
{
    let ghost kv = known@.map_values(|k: String| k@);
    let mut i: usize = 0;
    while i < known.len()
        invariant
            i <= known@.len(),
            kv == known@.map_values(|k: String| k@),
            forall|j: int| 0 <= j < i ==> kv[j] != name@,
        decreases known.len() - i,
    {
        if eq_chars(&chars_of(known[i].as_str()), name) {
            proof {
                assert(kv[i as int] == name@);
            }
            return true;
        }
        i += 1;
    }
    false
}

/// The news about the upstream catalog (the text of its JSON), given the
/// names of the models this catalog knows.
pub fn catalog_news(upstream: &str, known: &[String]) -> (r: Option<String>)
    ensures
        match r {
            Some(t) => catalog_news_spec(upstream@, known@.map_values(|k: String| k@)) == Some(t@),
            None => catalog_news_spec(upstream@, known@.map_values(|k: String| k@)) is None,
        },
{
    let ghost kv = known@.map_values(|k: String| k@);
    let items = match crate::sync::reply::array_field(upstream, "models") {
        Some(v) => v,
        None => {
            return None;
        },
    };
    let ghost iv = items@.map_values(|x: String| x@);
    let mut fresh: Vec<Vec<char>> = Vec::new();
    let mut i: usize = 0;
    while i < items.len()
        invariant
            i <= items@.len(),
            iv == items@.map_values(|x: String| x@),
            kv == known@.map_values(|k: String| k@),
            fresh@.map_values(|x: Vec<char>| x@) == fresh_names(upstream_names(iv.take(i as int)), kv),
        decreases items.len() - i,
    {
        proof {
            assert(iv.take(i + 1).drop_last() =~= iv.take(i as int));
            assert(iv.take(i + 1).last() == items@[i as int]@);
        }
        let ghost before = fresh@.map_values(|x: Vec<char>| x@);
        match crate::sync::reply::text_field(items[i].as_str(), "name") {
            Some(n) => {
                let nc = chars_of(n.as_str());
                proof {
                    let names = upstream_names(iv.take(i as int));
                    assert(upstream_names(iv.take(i + 1)) == names.push(nc@));
                    assert(names.push(nc@).drop_last() =~= names);
                }
                if !known_has(known, &nc) {
                    fresh.push(nc);
                    proof {
                        assert(fresh@.map_values(|x: Vec<char>| x@) =~= before.push(nc@));
                    }
                }
            },
            None => {},
        }
        i += 1;
    }
    proof {
        assert(iv.take(iv.len() as int) =~= iv);
    }
    if fresh.len() == 0 {
        return None;
    }
    let n = if fresh.len() < 3 { fresh.len() } else { 3 };
    let mut first: Vec<Vec<char>> = Vec::new();
    let mut k: usize = 0;
    while k < n
        invariant
            k <= n <= fresh@.len(),
            first@.len() == k,
            forall|j: int| 0 <= j < k ==> (#[trigger] first@[j])@ == fresh@[j]@,
        decreases n - k,
    {
        let mut c: Vec<char> = Vec::new();
        append(&mut c, &fresh[k]);
        proof {
            assert(c@ =~= fresh@[k as int]@);
        }
        first.push(c);
        k += 1;
    }
    proof {
        assert(first@.map_values(|x: Vec<char>| x@) =~= fresh@.map_values(|x: Vec<char>| x@).take(n as int));
    }
    let mut t = chars_of("В каталоге Handy появились новые модели: ");
    append(&mut t, &join_chars(&first, &chars_of(", ")));
    append(&mut t, &chars_of(". Они приедут со следующей версией приложения"));
    Some(string_of(&t))
}

} // verus!
