//! The portable export document: a mapping from configuration file name to
//! a filtered settings section, serialized to and from pretty-printed JSON
//! through `serde_json`. Building, lookup, and the application of a
//! document to configuration contents are verified; only the JSON encoding
//! and decoding calls themselves are trusted.
use vstd::prelude::*;
use vstd::pervasive::VecAdditionalExecFns;

use crate::merge::{import_into_content, merge_entries};
use crate::settings::{
    filter_entries, filter_settings, parse_cod_settings, parse_lines, wf_entries, SettingsMap,
};
use crate::text::{bytes_eq, join_lines, lines_view, split_lines};

verus! {

/// The mathematical shape of a document: section names paired with their
/// key/value entries, in order.
pub type DocView = Seq<(Seq<u8>, Seq<(Seq<u8>, Seq<u8>)>)>;

/// One section of the document: the owning file's name and its settings.
#[derive(Debug)]
pub struct Section {
    pub name: Vec<u8>,
    pub settings: SettingsMap,
}

impl View for Section {
    type V = (Seq<u8>, Seq<(Seq<u8>, Seq<u8>)>);

    open spec fn view(&self) -> (Seq<u8>, Seq<(Seq<u8>, Seq<u8>)>) {
        (self.name@, self.settings@)
    }
}

/// A whole export document.
#[derive(Debug)]
pub struct ExportDoc {
    pub sections: Vec<Section>,
}

impl View for ExportDoc {
    type V = DocView;

    open spec fn view(&self) -> DocView {
        self.sections@.map_values(|s: Section| s@)
    }
}

/// Section names are pairwise distinct and every section has distinct keys.
pub open spec fn doc_wf(d: DocView) -> bool {
    &&& forall|i: int, j: int| 0 <= i < j < d.len() ==> (#[trigger] d[i]).0 != (#[trigger] d[j]).0
    &&& forall|i: int| 0 <= i < d.len() ==> wf_entries((#[trigger] d[i]).1)
}

/// Replaces the first section with this name, or appends a new section.
pub open spec fn insert_section(
    d: DocView,
    name: Seq<u8>,
    s: Seq<(Seq<u8>, Seq<u8>)>,
) -> DocView
    decreases d.len(),
{
    if d.len() == 0 {
        seq![(name, s)]
    } else if d[0].0 == name {
        seq![(name, s)] + d.drop_first()
    } else {
        seq![d[0]] + insert_section(d.drop_first(), name, s)
    }
}

/// The section stored under `name`, if any.
pub open spec fn section_lookup(d: DocView, name: Seq<u8>) -> Option<Seq<(Seq<u8>, Seq<u8>)>>
    decreases d.len(),
{
    if d.len() == 0 {
        None
    } else if d[0].0 == name {
        Some(d[0].1)
    } else {
        section_lookup(d.drop_first(), name)
    }
}

/// One discovered configuration file handed in by the caller: its name and
/// its content, or nothing when the file could not be read.
#[derive(Debug)]
pub struct ConfigFileData {
    pub name: Vec<u8>,
    pub content: Option<Vec<u8>>,
}

impl View for ConfigFileData {
    type V = (Seq<u8>, Option<Seq<u8>>);

    open spec fn view(&self) -> (Seq<u8>, Option<Seq<u8>>) {
        (
            self.name@,
            match self.content {
                Option::Some(c) => Option::Some(c@),
                Option::None => Option::None,
            },
        )
    }
}

/// The view of a list of configuration files.
pub open spec fn files_view(fs: Seq<ConfigFileData>) -> Seq<(Seq<u8>, Option<Seq<u8>>)> {
    fs.map_values(|f: ConfigFileData| f@)
}

/// The document that export builds: each readable file is parsed and
/// filtered and its section inserted under the file's name, in order; a
/// repeated name keeps the last file's section; unreadable files are
/// skipped.
pub open spec fn export_view(
    fs: Seq<(Seq<u8>, Option<Seq<u8>>)>,
    cats: Seq<Seq<u8>>,
) -> DocView
    decreases fs.len(),
{
    if fs.len() == 0 {
        Seq::empty()
    } else {
        let d = export_view(fs.drop_last(), cats);
        match fs.last().1 {
            Some(c) => insert_section(
                d,
                fs.last().0,
                filter_entries(parse_lines(split_lines(c)), cats),
            ),
            None => d,
        }
    }
}

/// What applying a document to one file yields: the merged content when
/// the file was readable, has a section, and merging actually changed
/// some line; nothing (leave the file untouched) otherwise, so a merge
/// with zero applied changes never rewrites the file.
pub open spec fn import_result(
    f: (Seq<u8>, Option<Seq<u8>>),
    d: DocView,
) -> Option<Seq<u8>> {
    match f.1 {
        None => None,
        Some(c) => match section_lookup(d, f.0) {
            None => None,
            Some(es) => if merge_entries(split_lines(c), es) != split_lines(c) {
                Some(join_lines(merge_entries(split_lines(c), es)))
            } else {
                None
            },
        },
    }
}

/// True when some section of `d` has this name.
pub open spec fn has_section(d: DocView, name: Seq<u8>) -> bool {
    exists|i: int| 0 <= i < d.len() && (#[trigger] d[i]).0 == name
}

/// The position of the first section with this name.
proof fn find_first_section(d: DocView, name: Seq<u8>) -> (j: int)
    requires
        has_section(d, name),
    ensures
        0 <= j < d.len(),
        d[j].0 == name,
        forall|t: int| 0 <= t < j ==> (#[trigger] d[t]).0 != name,
    decreases d.len(),
{
    if d[0].0 == name {
        0
    } else {
        assert(has_section(d.drop_first(), name)) by {
            let i = choose|i: int| 0 <= i < d.len() && (#[trigger] d[i]).0 == name;
            assert(d.drop_first()[i - 1].0 == name);
        }
        let j = find_first_section(d.drop_first(), name) + 1;
        assert forall|t: int| 0 <= t < j implies (#[trigger] d[t]).0 != name by {
            if t > 0 {
                assert(d.drop_first()[t - 1] == d[t]);
            }
        }
        j
    }
}

/// Inserting a well-formed section keeps the document well-formed.
pub proof fn lemma_insert_section_wf(d: DocView, name: Seq<u8>, s: Seq<(Seq<u8>, Seq<u8>)>)
    requires
        doc_wf(d),
        wf_entries(s),
    ensures
        doc_wf(insert_section(d, name, s)),
{
    let out = insert_section(d, name, s);
    if has_section(d, name) {
        let j = find_first_section(d, name);
        lemma_insert_section_at_index(d, name, s, j);
        assert forall|a: int, b: int| 0 <= a < b < out.len() implies (#[trigger] out[a]).0 != (
        #[trigger] out[b]).0 by {
            assert(d[a].0 != d[b].0);
            assert(a == j ==> out[a].0 == d[a].0);
            assert(b == j ==> out[b].0 == d[b].0);
        }
        assert forall|i: int| 0 <= i < out.len() implies wf_entries((#[trigger] out[i]).1) by {
            if i != j {
                assert(out[i] == d[i]);
            }
        }
    } else {
        assert forall|t: int| 0 <= t < d.len() implies (#[trigger] d[t]).0 != name by {}
        lemma_insert_section_absent(d, name, s);
        assert forall|a: int, b: int| 0 <= a < b < out.len() implies (#[trigger] out[a]).0 != (
        #[trigger] out[b]).0 by {
            if b < d.len() {
                assert(d[a].0 != d[b].0);
            } else {
                assert(out[b].0 == name);
                assert(out[a].0 == d[a].0);
            }
        }
        assert forall|i: int| 0 <= i < out.len() implies wf_entries((#[trigger] out[i]).1) by {
            if i < d.len() {
                assert(out[i] == d[i]);
            } else {
                assert(out[i].1 == s);
            }
        }
    }
}

/// Inserting a section makes it the one found under its name, and leaves
/// what is found under every other name unchanged.
proof fn lemma_insert_section_lookup(d: DocView, name: Seq<u8>, s: Seq<(Seq<u8>, Seq<u8>)>)
    ensures
        section_lookup(insert_section(d, name, s), name) == Some(s),
        forall|q: Seq<u8>|
            q != name ==> section_lookup(insert_section(d, name, s), q) == section_lookup(d, q),
    decreases d.len(),
{
    let out = insert_section(d, name, s);
    if d.len() == 0 {
        assert(out[0] == (name, s));
        assert forall|q: Seq<u8>| q != name implies section_lookup(out, q) == section_lookup(
            d,
            q,
        ) by {
            assert(out.drop_first() =~~= d);
        }
    } else if d[0].0 == name {
        assert(out[0] == (name, s));
        assert(out.drop_first() =~~= d.drop_first());
        assert forall|q: Seq<u8>| q != name implies section_lookup(out, q) == section_lookup(
            d,
            q,
        ) by {
            assert(section_lookup(out, q) == section_lookup(d.drop_first(), q));
        }
    } else {
        lemma_insert_section_lookup(d.drop_first(), name, s);
        assert(out[0] == d[0]);
        assert(out.drop_first() =~~= insert_section(d.drop_first(), name, s));
        assert forall|q: Seq<u8>| q != name implies section_lookup(out, q) == section_lookup(
            d,
            q,
        ) by {
            if q != d[0].0 {
                assert(section_lookup(out, q) == section_lookup(
                    insert_section(d.drop_first(), name, s),
                    q,
                ));
                assert(section_lookup(d, q) == section_lookup(d.drop_first(), q));
            }
        }
    }
}

/// The section law for one exported file: when no other file shares its
/// name, the section the export document stores under that name is
/// exactly the filter of that file's parsed settings. Together with the
/// filter law this pins which keys appear in the section, with their
/// values verbatim.
pub proof fn lemma_export_section_for_file(
    fs: Seq<(Seq<u8>, Option<Seq<u8>>)>,
    cats: Seq<Seq<u8>>,
    i: int,
)
    requires
        0 <= i < fs.len(),
        fs[i].1 is Some,
        forall|j: int| 0 <= j < fs.len() && j != i ==> (#[trigger] fs[j]).0 != fs[i].0,
    ensures
        section_lookup(export_view(fs, cats), fs[i].0) == Some(
            filter_entries(parse_lines(split_lines(fs[i].1->Some_0)), cats),
        ),
    decreases fs.len(),
{
    let d = export_view(fs.drop_last(), cats);
    if i == fs.len() - 1 {
        lemma_insert_section_lookup(
            d,
            fs.last().0,
            filter_entries(parse_lines(split_lines(fs.last().1->Some_0)), cats),
        );
    } else {
        assert(fs.drop_last()[i] == fs[i]);
        assert forall|j: int|
            0 <= j < fs.drop_last().len() && j != i implies (#[trigger] fs.drop_last()[j]).0
            != fs.drop_last()[i].0 by {
            assert(fs.drop_last()[j] == fs[j]);
        }
        lemma_export_section_for_file(fs.drop_last(), cats, i);
        match fs.last().1 {
            Some(c) => {
                lemma_insert_section_lookup(
                    d,
                    fs.last().0,
                    filter_entries(parse_lines(split_lines(c)), cats),
                );
                assert(fs.last().0 != fs[i].0);
            },
            None => {},
        }
    }
}

/// The document export builds is well-formed: one section per name, each
/// with distinct keys.
pub proof fn lemma_export_doc_wf(fs: Seq<(Seq<u8>, Option<Seq<u8>>)>, cats: Seq<Seq<u8>>)
    ensures
        doc_wf(export_view(fs, cats)),
    decreases fs.len(),
{
    if fs.len() > 0 {
        lemma_export_doc_wf(fs.drop_last(), cats);
        match fs.last().1 {
            Some(c) => {
                crate::settings::lemma_parse_lines_wf(split_lines(c));
                crate::settings::lemma_filter_entries_wf(parse_lines(split_lines(c)), cats);
                lemma_insert_section_wf(
                    export_view(fs.drop_last(), cats),
                    fs.last().0,
                    filter_entries(parse_lines(split_lines(c)), cats),
                );
            },
            None => {},
        }
    }
}

/// When `name` is absent, inserting a section appends.
proof fn lemma_insert_section_absent(d: DocView, name: Seq<u8>, s: Seq<(Seq<u8>, Seq<u8>)>)
    requires
        forall|t: int| 0 <= t < d.len() ==> (#[trigger] d[t]).0 != name,
    ensures
        insert_section(d, name, s) == d.push((name, s)),
    decreases d.len(),
{
    if d.len() == 0 {
        assert(insert_section(d, name, s) =~~= d.push((name, s)));
    } else {
        assert forall|t: int| 0 <= t < d.drop_first().len() implies (
        #[trigger] d.drop_first()[t]).0 != name by {
            assert(d.drop_first()[t] == d[t + 1]);
        }
        lemma_insert_section_absent(d.drop_first(), name, s);
        assert(insert_section(d, name, s) =~~= d.push((name, s)));
    }
}

/// When the first section with `name` stands at `j`, inserting updates `j`.
proof fn lemma_insert_section_at_index(
    d: DocView,
    name: Seq<u8>,
    s: Seq<(Seq<u8>, Seq<u8>)>,
    j: int,
)
    requires
        0 <= j < d.len(),
        d[j].0 == name,
        forall|t: int| 0 <= t < j ==> (#[trigger] d[t]).0 != name,
    ensures
        insert_section(d, name, s) == d.update(j, (name, s)),
    decreases d.len(),
{
    if j == 0 {
        assert(insert_section(d, name, s) =~~= d.update(0, (name, s)));
    } else {
        assert forall|t: int| 0 <= t < j - 1 implies (#[trigger] d.drop_first()[t]).0 != name by {
            assert(d.drop_first()[t] == d[t + 1]);
        }
        assert(d.drop_first()[j - 1] == d[j]);
        lemma_insert_section_at_index(d.drop_first(), name, s, j - 1);
        assert(insert_section(d, name, s) =~~= d.update(j, (name, s)));
    }
}

impl ExportDoc {
    /// An empty document.
    pub fn new() -> (r: ExportDoc)
        ensures
            r@ == Seq::<(Seq<u8>, Seq<(Seq<u8>, Seq<u8>)>)>::empty(),
    {
        let r = ExportDoc { sections: Vec::new() };
        proof {
            assert(r@ =~~= Seq::<(Seq<u8>, Seq<(Seq<u8>, Seq<u8>)>)>::empty());
        }
        r
    }

    /// Inserts a section under `name`, replacing an existing one.
    pub fn insert_section(&mut self, name: Vec<u8>, settings: SettingsMap)
        ensures
            final(self)@ == insert_section(old(self)@, name@, settings@),
    {
        let mut i: usize = 0;
        while i < self.sections.len()
            invariant
                0 <= i <= self.sections@.len(),
                self == old(self),
                forall|t: int| 0 <= t < i ==> (#[trigger] self@[t]).0 != name@,
            decreases self.sections@.len() - i,
        {
            assert(self@[i as int].0 == self.sections@[i as int].name@);
            if bytes_eq(&self.sections[i].name, &name) {
                let ghost sv = settings@;
                self.sections.set(i, Section { name, settings });
                proof {
                    lemma_insert_section_at_index(old(self)@, old(self)@[i as int].0, sv, i as int);
                    assert(final(self)@ =~~= old(self)@.update(
                        i as int,
                        (old(self)@[i as int].0, sv),
                    ));
                }
                return ;
            }
            i += 1;
        }
        let ghost nv = name@;
        let ghost sv = settings@;
        self.sections.push(Section { name, settings });
        proof {
            lemma_insert_section_absent(old(self)@, nv, sv);
            assert(self@ =~~= old(self)@.push((nv, sv)));
        }
    }

    /// The section stored under `name`, if any.
    pub fn find_section<'a>(&'a self, name: &Vec<u8>) -> (r: Option<&'a SettingsMap>)
        ensures
            match r {
                Some(s) => section_lookup(self@, name@) == Some(s@),
                None => section_lookup(self@, name@) is None,
            },
    {
        let mut i: usize = 0;
        proof {
            assert(self@.skip(0) =~~= self@);
        }
        while i < self.sections.len()
            invariant
                0 <= i <= self.sections@.len(),
                section_lookup(self@, name@) == section_lookup(self@.skip(i as int), name@),
            decreases self.sections@.len() - i,
        {
            proof {
                assert(self@.skip(i as int)[0] == self@[i as int]);
                assert(self@.skip(i as int).drop_first() =~~= self@.skip(i + 1));
            }
            if bytes_eq(&self.sections[i].name, name) {
                return Some(&self.sections[i].settings);
            }
            i += 1;
        }
        proof {
            assert(self@.skip(self@.len() as int) =~~= Seq::<
                (Seq<u8>, Seq<(Seq<u8>, Seq<u8>)>),
            >::empty());
        }
        None
    }
}

/// Builds the export document from the discovered files: each readable
/// file is parsed, filtered against the categories, and recorded under its
/// own name; files that could not be read are skipped.
pub fn export_to_doc(files: &Vec<ConfigFileData>, cats: &Vec<Vec<u8>>) -> (d: ExportDoc)
    ensures
        d@ == export_view(files_view(files@), lines_view(cats@)),
        doc_wf(d@),
{
    proof {
        lemma_export_doc_wf(files_view(files@), lines_view(cats@));
    }
    let mut d = ExportDoc::new();
    let mut i: usize = 0;
    proof {
        assert(files_view(files@).take(0) =~~= Seq::<(Seq<u8>, Option<Seq<u8>>)>::empty());
    }
    while i < files.len()
        invariant
            0 <= i <= files@.len(),
            d@ == export_view(files_view(files@).take(i as int), lines_view(cats@)),
        decreases files@.len() - i,
    {
        let ghost fv = files_view(files@);
        let f = &files[i];
        match &f.content {
            Some(content) => {
                let parsed = parse_cod_settings(content);
                let filtered = filter_settings(&parsed, cats);
                let name = crate::settings::clone_bytes(&f.name);
                d.insert_section(name, filtered);
            },
            None => {},
        }
        proof {
            assert(fv.take(i + 1).drop_last() =~~= fv.take(i as int));
            assert(fv.take(i + 1).last() == fv[i as int]);
            assert(fv[i as int] == files@[i as int]@);
        }
        i += 1;
    }
    proof {
        assert(files_view(files@).take(files@.len() as int) =~~= files_view(files@));
    }
    d
}

/// A name for the exact byte string `serde_json` produces for a document:
/// the sections become a JSON object of objects of strings, pretty-printed
/// with keys in sorted order.
pub uninterp spec fn json_of(d: DocView) -> Seq<u8>;

/// A name for what `serde_json` accepts: the document recovered from the
/// bytes when they hold a JSON object of objects of strings, with sections
/// and keys in sorted order, or nothing when they do not.
pub uninterp spec fn json_doc_of(s: Seq<u8>) -> Option<DocView>;

/// Relies on `serde_json::to_vec_pretty` over `serde_json::Value` maps of
/// strings: the encoding is a pure function of the section names, keys and
/// values handed in. Invalid UTF-8 is carried over lossily.
#[verifier::external_body]
fn doc_to_json_bytes(doc: &ExportDoc) -> (r: Vec<u8>)
    ensures
        r@ == json_of(doc@),
{
    let mut top = serde_json::Map::new();
    for s in doc.sections.iter() {
        let mut obj = serde_json::Map::new();
        for e in s.settings.entries.iter() {
            let k = String::from_utf8_lossy(&e.key).into_owned();
            let v = String::from_utf8_lossy(&e.value).into_owned();
            obj.insert(k, serde_json::Value::String(v));
        }
        top.insert(String::from_utf8_lossy(&s.name).into_owned(), serde_json::Value::Object(obj));
    }
    serde_json::to_vec_pretty(&serde_json::Value::Object(top)).unwrap_or_default()
}

/// Relies on `serde_json::from_slice` into nested string maps: it returns
/// the parsed document exactly when the bytes are valid JSON of that
/// shape, with sections and keys in the maps' sorted order, hence unique.
#[verifier::external_body]
fn json_bytes_to_doc(bytes: &Vec<u8>) -> (r: Option<ExportDoc>)
    ensures
        match r {
            Some(d) => json_doc_of(bytes@) == Some(d@) && doc_wf(d@),
            None => json_doc_of(bytes@) is None,
        },
{
    let tree: std::collections::BTreeMap<String, std::collections::BTreeMap<String, String>> =
        match serde_json::from_slice(bytes) {
            Ok(t) => t,
            Err(_) => return None,
        };
    let mut sections: Vec<Section> = Vec::new();
    for (name, sec) in tree {
        let mut entries = Vec::new();
        for (k, v) in sec {
            entries.push(crate::settings::Setting { key: k.into_bytes(), value: v.into_bytes() });
        }
        sections.push(Section { name: name.into_bytes(), settings: SettingsMap { entries } });
    }
    Some(ExportDoc { sections })
}

/// Import failure. A corrupt document cannot be partially trusted, so it
/// is fatal for the whole import; a missing per-file section is no error.
#[derive(Debug, PartialEq, Eq, Structural)]
pub enum ImportError {
    /// The document bytes do not hold a JSON object of objects of strings.
    MalformedDocument,
}

/// Serializes the filtered settings of the given files as the portable
/// JSON document, keyed by file name.
pub fn export_to_json(files: &Vec<ConfigFileData>, cats: &Vec<Vec<u8>>) -> (r: Vec<u8>)
    ensures
        r@ == json_of(export_view(files_view(files@), lines_view(cats@))),
{
    let d = export_to_doc(files, cats);
    doc_to_json_bytes(&d)
}

/// Deserializes a portable document, or reports it malformed.
pub fn parse_export_document(bytes: &Vec<u8>) -> (r: Result<ExportDoc, ImportError>)
    ensures
        match r {
            Ok(d) => json_doc_of(bytes@) == Some(d@) && doc_wf(d@),
            Err(e) => json_doc_of(bytes@) is None && e == ImportError::MalformedDocument,
        },
{
    match json_bytes_to_doc(bytes) {
        Some(d) => Ok(d),
        None => Err(ImportError::MalformedDocument),
    }
}

/// The updated content for one file, or nothing when it is left untouched.
#[derive(Debug)]
pub struct FileUpdate {
    pub name: Vec<u8>,
    pub new_content: Option<Vec<u8>>,
}

impl View for FileUpdate {
    type V = (Seq<u8>, Option<Seq<u8>>);

    open spec fn view(&self) -> (Seq<u8>, Option<Seq<u8>>) {
        (
            self.name@,
            match self.new_content {
                Option::Some(c) => Option::Some(c@),
                Option::None => Option::None,
            },
        )
    }
}

/// Applies a parsed document to every file: a file is rewritten exactly
/// when it was readable, its name has a section in the document, and
/// merging that section changed at least one line; every other file is
/// left untouched, so an import that applies nothing rewrites nothing.
pub fn import_apply_all(files: &Vec<ConfigFileData>, doc: &ExportDoc) -> (r: Vec<FileUpdate>)
    ensures
        r@.len() == files@.len(),
        forall|i: int|
            0 <= i < files@.len() ==> (#[trigger] r@[i])@ == (
                files@[i]@.0,
                import_result(files@[i]@, doc@),
            ),
{
    let mut r: Vec<FileUpdate> = Vec::new();
    let mut i: usize = 0;
    while i < files.len()
        invariant
            0 <= i <= files@.len(),
            r@.len() == i,
            forall|t: int|
                0 <= t < i ==> (#[trigger] r@[t])@ == (
                    files@[t]@.0,
                    import_result(files@[t]@, doc@),
                ),
        decreases files@.len() - i,
    {
        let f = &files[i];
        let name = crate::settings::clone_bytes(&f.name);
        let mut update = FileUpdate { name, new_content: None };
        match &f.content {
            Some(content) => {
                match doc.find_section(&f.name) {
                    Some(section) => {
                        let (merged, changed) = import_into_content(content, section);
                        if changed {
                            update.new_content = Some(merged);
                        }
                    },
                    None => {},
                }
            },
            None => {},
        }
        r.push(update);
        i += 1;
    }
    r
}

} // verus!
