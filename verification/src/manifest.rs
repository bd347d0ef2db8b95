//! The update manifest: the single source of truth that the legacy text
//! files are rendered from, and the checks a manifest must pass before it is
//! served.
//!
//! The legacy formats are whitespace-separated with one record per line, so
//! no field may contain whitespace.
use vstd::prelude::*;

use crate::text::{
    append_str, basename, basename_of, contains_white_space, debug_quoted, debug_str,
    has_white_space, opt_view, string_of, strings_view,
};
use crate::version::{
    key_from, key_is_less, key_less, key_of, lemma_key_less_irreflexive, lemma_key_less_transitive,
};

verus! {

/// The ordered list of releases, ascending by version.
#[derive(Debug)]
pub struct Manifest {
    pub versions: Vec<VersionEntry>,
}

/// One release. A release ships zero or more update zips and deletes zero or
/// more files.
#[derive(Debug)]
pub struct VersionEntry {
    pub version: String,
    /// Download URLs of the update zips. The install path the updaters use is
    /// derived from each URL's basename.
    pub zips: Vec<String>,
    pub deletes: Vec<String>,
    /// Full install download, if one was cut at this version. The newest one
    /// in the manifest is what the install file serves.
    pub full_download: Option<String>,
}

/// A release, as text.
pub struct EntryView {
    pub version: Seq<char>,
    pub zips: Seq<Seq<char>>,
    pub deletes: Seq<Seq<char>>,
    pub full_download: Option<Seq<char>>,
}

impl View for VersionEntry {
    type V = EntryView;

    open spec fn view(&self) -> EntryView {
        EntryView {
            version: self.version@,
            zips: strings_view(self.zips@),
            deletes: strings_view(self.deletes@),
            full_download: opt_view(self.full_download),
        }
    }
}

impl View for Manifest {
    type V = Seq<EntryView>;

    open spec fn view(&self) -> Seq<EntryView> {
        self.versions@.map_values(|e: VersionEntry| e@)
    }
}

/// The fields of a release that must be single non-empty words.
#[derive(Clone, Copy, Debug, PartialEq, Eq)]
pub enum FieldKind {
    ZipUrl,
    DeletePath,
    FullDownloadUrl,
}

pub open spec fn kind_name(kind: FieldKind) -> Seq<char> {
    match kind {
        FieldKind::ZipUrl => "zip url"@,
        FieldKind::DeletePath => "delete path"@,
        FieldKind::FullDownloadUrl => "full download url"@,
    }
}

impl FieldKind {
    /// How messages name the field.
    pub fn name(&self) -> (r: &'static str)
        ensures
            r@ == kind_name(*self),
    {
        match self {
            FieldKind::ZipUrl => "zip url",
            FieldKind::DeletePath => "delete path",
            FieldKind::FullDownloadUrl => "full download url",
        }
    }
}

/// The first thing wrong with a manifest, if anything is.
#[derive(Debug)]
pub enum Problem {
    /// A version that is empty or not dot-separated numbers.
    BadVersion { version: String },
    /// A version that does not sort after the one before it.
    NotAscending { version: String, previous: String },
    /// An empty field.
    EmptyField { version: String, kind: FieldKind },
    /// A field holding white space.
    WhiteSpace { version: String, kind: FieldKind, value: String },
    /// A zip or full download URL that ends in `/`.
    NoFilename { version: String, kind: FieldKind, url: String },
}

pub enum ProblemView {
    BadVersion { version: Seq<char> },
    NotAscending { version: Seq<char>, previous: Seq<char> },
    EmptyField { version: Seq<char>, kind: FieldKind },
    WhiteSpace { version: Seq<char>, kind: FieldKind, value: Seq<char> },
    NoFilename { version: Seq<char>, kind: FieldKind, url: Seq<char> },
}

impl View for Problem {
    type V = ProblemView;

    open spec fn view(&self) -> ProblemView {
        match self {
            Problem::BadVersion { version } => ProblemView::BadVersion { version: version@ },
            Problem::NotAscending { version, previous } => ProblemView::NotAscending {
                version: version@,
                previous: previous@,
            },
            Problem::EmptyField { version, kind } => ProblemView::EmptyField {
                version: version@,
                kind: *kind,
            },
            Problem::WhiteSpace { version, kind, value } => ProblemView::WhiteSpace {
                version: version@,
                kind: *kind,
                value: value@,
            },
            Problem::NoFilename { version, kind, url } => ProblemView::NoFilename {
                version: version@,
                kind: *kind,
                url: url@,
            },
        }
    }
}

pub open spec fn problem_view(p: Option<Problem>) -> Option<ProblemView> {
    match p {
        Some(p) => Some(p@),
        None => None,
    }
}

/// The first problem of a list, checked in order.
pub open spec fn first_of(checks: Seq<Option<ProblemView>>) -> Option<ProblemView>
    decreases checks.len(),
{
    if checks.len() == 0 {
        None
    } else if checks[0] is Some {
        checks[0]
    } else {
        first_of(checks.drop_first())
    }
}

/// A field must be non-empty and free of white space.
pub open spec fn field_problem(version: Seq<char>, kind: FieldKind, value: Seq<char>) -> Option<
    ProblemView,
> {
    if value.len() == 0 {
        Some(ProblemView::EmptyField { version, kind })
    } else if has_white_space(value) {
        Some(ProblemView::WhiteSpace { version, kind, value })
    } else {
        None
    }
}

/// A URL (of a zip or of a full download) must be a field that ends in a
/// filename.
pub open spec fn url_problem(version: Seq<char>, kind: FieldKind, url: Seq<char>) -> Option<
    ProblemView,
> {
    if field_problem(version, kind, url) is Some {
        field_problem(version, kind, url)
    } else if basename(url).len() == 0 {
        Some(ProblemView::NoFilename { version, kind, url })
    } else {
        None
    }
}

/// The first problem among the fields of a release: its zips, then its
/// deletes, then its full download.
pub open spec fn entry_fields_problem(e: EntryView) -> Option<ProblemView> {
    let zips = first_of(e.zips.map_values(|u: Seq<char>| url_problem(e.version, FieldKind::ZipUrl, u)));
    let deletes = first_of(
        e.deletes.map_values(|d: Seq<char>| field_problem(e.version, FieldKind::DeletePath, d)),
    );
    if zips is Some {
        zips
    } else if deletes is Some {
        deletes
    } else {
        match e.full_download {
            Some(u) => url_problem(e.version, FieldKind::FullDownloadUrl, u),
            None => None,
        }
    }
}

/// The first problem of the releases `entries`, the release before them
/// having the version and key `previous`.
pub open spec fn entries_problem(
    entries: Seq<EntryView>,
    previous: Option<(Seq<char>, Seq<u64>)>,
) -> Option<ProblemView>
    decreases entries.len(),
{
    if entries.len() == 0 {
        None
    } else {
        let e = entries[0];
        match key_of(e.version) {
            None => Some(ProblemView::BadVersion { version: e.version }),
            Some(key) => {
                let out_of_order = match previous {
                    Some((_, previous_key)) => !key_less(previous_key, key),
                    None => false,
                };
                if out_of_order {
                    Some(
                        ProblemView::NotAscending {
                            version: e.version,
                            previous: match previous {
                                Some((previous_version, _)) => previous_version,
                                None => Seq::empty(),
                            },
                        },
                    )
                } else if entry_fields_problem(e) is Some {
                    entry_fields_problem(e)
                } else {
                    entries_problem(entries.drop_first(), Some((e.version, key)))
                }
            },
        }
    }
}

/// The first problem of a manifest, in the order `Manifest::validate` checks.
pub open spec fn first_problem(m: Seq<EntryView>) -> Option<ProblemView> {
    entries_problem(m, None)
}

/// The text of a problem, given the quoted forms of the values it shows:
/// `quoted` of the version, value or URL, `quoted_other` of the previous
/// version.
pub open spec fn describe(p: ProblemView, quoted: Seq<char>, quoted_other: Seq<char>) -> Seq<char> {
    match p {
        ProblemView::BadVersion { version } => if version.len() == 0 {
            "version must not be empty"@
        } else {
            "version "@ + quoted + " must be dotted numbers"@
        },
        ProblemView::NotAscending { .. } => "versions must be strictly ascending, but "@ + quoted
            + " follows "@ + quoted_other,
        ProblemView::EmptyField { version, kind } => version + ": "@ + kind_name(kind)
            + " must not be empty"@,
        ProblemView::WhiteSpace { version, kind, .. } => version + ": "@ + kind_name(kind)
            + " must not contain whitespace, got "@ + quoted,
        ProblemView::NoFilename { version, kind, .. } => version + ": "@ + kind_name(kind)
            + " must end in a filename, got "@ + quoted,
    }
}

/// The message `Manifest::validate` reports for a problem.
pub open spec fn problem_message(p: ProblemView) -> Seq<char> {
    match p {
        ProblemView::BadVersion { version } => describe(p, debug_quoted(version), Seq::empty()),
        ProblemView::NotAscending { version, previous } => describe(
            p,
            debug_quoted(version),
            debug_quoted(previous),
        ),
        ProblemView::EmptyField { .. } => describe(p, Seq::empty(), Seq::empty()),
        ProblemView::WhiteSpace { value, .. } => describe(p, debug_quoted(value), Seq::empty()),
        ProblemView::NoFilename { url, .. } => describe(p, debug_quoted(url), Seq::empty()),
    }
}

proof fn lemma_first_of_step(checks: Seq<Option<ProblemView>>, i: int)
    requires
        0 <= i < checks.len(),
    ensures
        first_of(checks.skip(i)) == (if checks[i] is Some {
            checks[i]
        } else {
            first_of(checks.skip(i + 1))
        }),
{
    assert(checks.skip(i).drop_first() =~= checks.skip(i + 1));
}

/// `value`'s problem as a field of kind `kind` of release `version`.
fn check_field(version: &String, kind: FieldKind, value: &String) -> (r: Option<Problem>)
    ensures
        problem_view(r) == field_problem(version@, kind, value@),
{
    if value.as_str().is_empty() {
        Some(Problem::EmptyField { version: version.clone(), kind })
    } else if contains_white_space(value.as_str()) {
        Some(Problem::WhiteSpace { version: version.clone(), kind, value: value.clone() })
    } else {
        None
    }
}

fn check_url(version: &String, kind: FieldKind, url: &String) -> (r: Option<Problem>)
    ensures
        problem_view(r) == url_problem(version@, kind, url@),
{
    let field = check_field(version, kind, url);
    if field.is_some() {
        return field;
    }
    let name = basename_of(url.as_str());
    if name.len() == 0 {
        Some(Problem::NoFilename { version: version.clone(), kind, url: url.clone() })
    } else {
        None
    }
}

fn check_entry_fields(entry: &VersionEntry) -> (r: Option<Problem>)
    ensures
        problem_view(r) == entry_fields_problem(entry@),
{
    let ghost e = entry@;
    let ghost zip_checks = e.zips.map_values(|u: Seq<char>| url_problem(e.version, FieldKind::ZipUrl, u));
    let ghost delete_checks = e.deletes.map_values(
        |d: Seq<char>| field_problem(e.version, FieldKind::DeletePath, d),
    );
    let mut i: usize = 0;
    assert(zip_checks.skip(0) =~= zip_checks);
    while i < entry.zips.len()
        invariant
            e == entry@,
            zip_checks == e.zips.map_values(|u: Seq<char>| url_problem(e.version, FieldKind::ZipUrl, u)),
            i <= entry.zips.len(),
            first_of(zip_checks) == first_of(zip_checks.skip(i as int)),
        decreases entry.zips.len() - i,
    {
        proof {
            lemma_first_of_step(zip_checks, i as int);
        }
        let found = check_url(&entry.version, FieldKind::ZipUrl, &entry.zips[i]);
        if found.is_some() {
            return found;
        }
        i = i + 1;
    }
    assert(zip_checks.skip(i as int) =~= Seq::<Option<ProblemView>>::empty());
    let mut j: usize = 0;
    assert(delete_checks.skip(0) =~= delete_checks);
    while j < entry.deletes.len()
        invariant
            e == entry@,
            first_of(zip_checks) is None,
            zip_checks == e.zips.map_values(|u: Seq<char>| url_problem(e.version, FieldKind::ZipUrl, u)),
            delete_checks == e.deletes.map_values(
                |d: Seq<char>| field_problem(e.version, FieldKind::DeletePath, d),
            ),
            j <= entry.deletes.len(),
            first_of(delete_checks) == first_of(delete_checks.skip(j as int)),
        decreases entry.deletes.len() - j,
    {
        proof {
            lemma_first_of_step(delete_checks, j as int);
        }
        let found = check_field(&entry.version, FieldKind::DeletePath, &entry.deletes[j]);
        if found.is_some() {
            return found;
        }
        j = j + 1;
    }
    assert(delete_checks.skip(j as int) =~= Seq::<Option<ProblemView>>::empty());
    match &entry.full_download {
        Some(url) => check_url(&entry.version, FieldKind::FullDownloadUrl, url),
        None => None,
    }
}

impl Problem {
    /// The text of the problem, given the quoted forms of the values it
    /// shows: `quoted` of the version, value or URL, `quoted_other` of the
    /// previous version.
    pub fn describe(&self, quoted: &str, quoted_other: &str) -> (r: String)
        ensures
            r@ == describe(self@, quoted@, quoted_other@),
    {
        match self {
            Problem::BadVersion { version } => {
                if version.as_str().is_empty() {
                    string_of("version must not be empty")
                } else {
                    let mut m = string_of("version ");
                    append_str(&mut m, quoted);
                    append_str(&mut m, " must be dotted numbers");
                    m
                }
            },
            Problem::NotAscending { .. } => {
                let mut m = string_of("versions must be strictly ascending, but ");
                append_str(&mut m, quoted);
                append_str(&mut m, " follows ");
                append_str(&mut m, quoted_other);
                m
            },
            Problem::EmptyField { version, kind } => {
                let mut m = string_of(version.as_str());
                append_str(&mut m, ": ");
                append_str(&mut m, kind.name());
                append_str(&mut m, " must not be empty");
                m
            },
            Problem::WhiteSpace { version, kind, .. } => {
                let mut m = string_of(version.as_str());
                append_str(&mut m, ": ");
                append_str(&mut m, kind.name());
                append_str(&mut m, " must not contain whitespace, got ");
                append_str(&mut m, quoted);
                m
            },
            Problem::NoFilename { version, kind, .. } => {
                let mut m = string_of(version.as_str());
                append_str(&mut m, ": ");
                append_str(&mut m, kind.name());
                append_str(&mut m, " must end in a filename, got ");
                append_str(&mut m, quoted);
                m
            },
        }
    }

    /// The message `Manifest::validate` reports for this problem.
    pub fn message(&self) -> (r: String)
        ensures
            r@ == problem_message(self@),
    {
        match self {
            Problem::BadVersion { version } => {
                let q = debug_str(version.as_str());
                self.describe(q.as_str(), "")
            },
            Problem::NotAscending { version, previous } => {
                let q = debug_str(version.as_str());
                let q2 = debug_str(previous.as_str());
                self.describe(q.as_str(), q2.as_str())
            },
            Problem::EmptyField { .. } => self.describe("", ""),
            Problem::WhiteSpace { value, .. } => {
                let q = debug_str(value.as_str());
                self.describe(q.as_str(), "")
            },
            Problem::NoFilename { url, .. } => {
                let q = debug_str(url.as_str());
                self.describe(q.as_str(), "")
            },
        }
    }
}

/// A copy of `strings`.
fn copy_strings(strings: &Vec<String>) -> (r: Vec<String>)
    ensures
        strings_view(r@) == strings_view(strings@),
{
    let mut r: Vec<String> = Vec::new();
    let mut i: usize = 0;
    while i < strings.len()
        invariant
            i <= strings.len(),
            strings_view(r@) == strings_view(strings@).take(i as int),
        decreases strings.len() - i,
    {
        let ghost before = strings_view(r@);
        r.push(strings[i].clone());
        assert(strings_view(r@) =~= before.push(strings@[i as int]@));
        assert(strings_view(strings@).take(i + 1) =~= strings_view(strings@).take(i as int).push(
            strings@[i as int]@,
        ));
        i = i + 1;
    }
    assert(strings_view(strings@).take(i as int) =~= strings_view(strings@));
    r
}

impl VersionEntry {
    /// A copy of the release.
    pub fn copy(&self) -> (r: VersionEntry)
        ensures
            r@ == self@,
    {
        VersionEntry {
            version: self.version.clone(),
            zips: copy_strings(&self.zips),
            deletes: copy_strings(&self.deletes),
            full_download: match &self.full_download {
                Some(url) => Some(url.clone()),
                None => None,
            },
        }
    }
}

impl Manifest {
    /// A copy of the manifest.
    pub fn copy(&self) -> (r: Manifest)
        ensures
            r@ == self@,
    {
        let mut versions: Vec<VersionEntry> = Vec::new();
        let mut i: usize = 0;
        while i < self.versions.len()
            invariant
                i <= self.versions.len(),
                versions@.map_values(|e: VersionEntry| e@) == self@.take(i as int),
            decreases self.versions.len() - i,
        {
            let ghost before = versions@.map_values(|e: VersionEntry| e@);
            let entry = self.versions[i].copy();
            versions.push(entry);
            assert(versions@.map_values(|e: VersionEntry| e@) =~= before.push(
                self.versions@[i as int]@,
            ));
            assert(self@.take(i + 1) =~= self@.take(i as int).push(self.versions@[i as int]@));
            i = i + 1;
        }
        assert(self@.take(i as int) =~= self@);
        Manifest { versions }
    }
}

impl Manifest {
    /// The first problem of the manifest, checked release by release: the
    /// version's syntax, its order after the previous one, then the fields.
    pub fn find_problem(&self) -> (r: Option<Problem>)
        ensures
            problem_view(r) == first_problem(self@),
    {
        let ghost m = self@;
        let mut previous: Option<(usize, Vec<u64>)> = None;
        let mut i: usize = 0;
        assert(m.skip(0) =~= m);
        while i < self.versions.len()
            invariant
                m == self@,
                i <= self.versions.len(),
                previous is None <==> i == 0,
                previous matches Some((j, _)) ==> j < i,
                first_problem(m) == entries_problem(
                    m.skip(i as int),
                    match previous {
                        Some((j, key)) => Some((m[j as int].version, key@)),
                        None => None,
                    },
                ),
            decreases self.versions.len() - i,
        {
            let entry = &self.versions[i];
            assert(m[i as int] == entry@);
            assert(m.skip(i as int)[0] == m[i as int]);
            assert(m.skip(i as int).drop_first() =~= m.skip(i + 1));
            let key = match key_from(entry.version.as_str()) {
                Some(key) => key,
                None => {
                    return Some(Problem::BadVersion { version: entry.version.clone() });
                },
            };
            match &previous {
                Some((j, previous_key)) => {
                    assert(m[*j as int] == self.versions@[*j as int]@);
                    if !key_is_less(previous_key, &key) {
                        return Some(
                            Problem::NotAscending {
                                version: entry.version.clone(),
                                previous: self.versions[*j].version.clone(),
                            },
                        );
                    }
                },
                None => {},
            }
            let found = check_entry_fields(entry);
            if found.is_some() {
                return found;
            }
            previous = Some((i, key));
            i = i + 1;
        }
        None
    }

    /// Checks everything a served manifest must satisfy: dotted numeric
    /// versions, strictly ascending, zip and full download URLs that end in a
    /// filename, and no empty field or field holding white space.
    pub fn validate(&self) -> (r: Result<(), String>)
        ensures
            r is Ok <==> first_problem(self@) is None,
            r matches Err(message) ==> message@ == problem_message(first_problem(self@)->0),
    {
        match self.find_problem() {
            None => Ok(()),
            Some(problem) => Err(problem.message()),
        }
    }
}


/// The sort key of a release, for one whose version has one.
pub open spec fn entry_key(e: EntryView) -> Seq<u64> {
    key_of(e.version)->0
}

proof fn lemma_entries_ok(entries: Seq<EntryView>, previous: Option<(Seq<char>, Seq<u64>)>)
    requires
        entries_problem(entries, previous) is None,
    ensures
        forall|k: int| 0 <= k < entries.len() ==> key_of((#[trigger] entries[k]).version) is Some,
        forall|k: int| 0 <= k < entries.len() ==> entry_fields_problem(#[trigger] entries[k]) is None,
        forall|a: int, b: int|
            0 <= a < b < entries.len() ==> key_less(
                entry_key(#[trigger] entries[a]),
                entry_key(#[trigger] entries[b]),
            ),
        previous matches Some((_, previous_key)) ==> forall|k: int|
            0 <= k < entries.len() ==> key_less(previous_key, entry_key(#[trigger] entries[k])),
    decreases entries.len(),
{
    if entries.len() > 0 {
        let e = entries[0];
        let key = key_of(e.version)->0;
        let rest = entries.drop_first();
        lemma_entries_ok(rest, Some((e.version, key)));
        assert forall|k: int| 0 <= k < entries.len() implies key_of(
            (#[trigger] entries[k]).version,
        ) is Some && entry_fields_problem(entries[k]) is None by {
            if k > 0 {
                assert(entries[k] == rest[k - 1]);
            }
        }
        assert forall|a: int, b: int| 0 <= a < b < entries.len() implies key_less(
            entry_key(#[trigger] entries[a]),
            entry_key(#[trigger] entries[b]),
        ) by {
            assert(entries[b] == rest[b - 1]);
            if a > 0 {
                assert(entries[a] == rest[a - 1]);
            }
        }
        if let Some((_, previous_key)) = previous {
            assert forall|k: int| 0 <= k < entries.len() implies key_less(
                previous_key,
                entry_key(#[trigger] entries[k]),
            ) by {
                if k > 0 {
                    assert(entries[k] == rest[k - 1]);
                    lemma_key_less_transitive(previous_key, key, entry_key(entries[k]));
                }
            }
        }
    }
}

/// A manifest that passes validation lists its releases in strictly
/// ascending version order, every version having a key.
pub proof fn lemma_valid_manifest_ascends(m: Seq<EntryView>)
    requires
        first_problem(m) is None,
    ensures
        forall|k: int| 0 <= k < m.len() ==> key_of((#[trigger] m[k]).version) is Some,
        forall|a: int, b: int|
            0 <= a < b < m.len() ==> key_less(entry_key(#[trigger] m[a]), entry_key(#[trigger] m[b])),
{
    lemma_entries_ok(m, None);
}

/// A release can be appended to a valid manifest only if its version sorts
/// after every version already there.
pub proof fn lemma_appended_release_sorts_last(m: Seq<EntryView>, e: EntryView)
    requires
        first_problem(m.push(e)) is None,
    ensures
        key_of(e.version) is Some,
        forall|k: int| 0 <= k < m.len() ==> key_less(entry_key(#[trigger] m[k]), entry_key(e)),
{
    let all = m.push(e);
    lemma_valid_manifest_ascends(all);
    assert(all[m.len() as int] == e);
    assert forall|k: int| 0 <= k < m.len() implies key_less(
        entry_key(#[trigger] m[k]),
        entry_key(e),
    ) by {
        assert(all[k] == m[k]);
    }
}


/// A non-empty string with no white space: one column of a line.
pub open spec fn is_word(s: Seq<char>) -> bool {
    s.len() > 0 && !has_white_space(s)
}

/// Every field of the release is a word, and every zip and full download URL
/// ends in a filename.
pub open spec fn entry_fields_are_words(e: EntryView) -> bool {
    &&& forall|z: int|
        0 <= z < e.zips.len() ==> is_word(#[trigger] e.zips[z]) && basename(e.zips[z]).len() > 0
    &&& forall|d: int| 0 <= d < e.deletes.len() ==> is_word(#[trigger] e.deletes[d])
    &&& e.full_download matches Some(url) ==> is_word(url) && basename(url).len() > 0
}

proof fn lemma_first_of_none(checks: Seq<Option<ProblemView>>, i: int)
    requires
        first_of(checks) is None,
        0 <= i < checks.len(),
    ensures
        checks[i] is None,
    decreases checks.len(),
{
    if i > 0 {
        assert(checks.drop_first()[i - 1] == checks[i]);
        lemma_first_of_none(checks.drop_first(), i - 1);
    }
}

/// The fields of a release pass their checks exactly when they are words and
/// every zip and full download URL ends in a filename.
pub proof fn lemma_entry_fields_problem_words(e: EntryView)
    ensures
        entry_fields_problem(e) is None <==> entry_fields_are_words(e),
{
    let zip_checks = e.zips.map_values(|u: Seq<char>| url_problem(e.version, FieldKind::ZipUrl, u));
    let delete_checks = e.deletes.map_values(
        |d: Seq<char>| field_problem(e.version, FieldKind::DeletePath, d),
    );
    if entry_fields_problem(e) is None {
        assert forall|z: int| 0 <= z < e.zips.len() implies is_word(#[trigger] e.zips[z])
            && basename(e.zips[z]).len() > 0 by {
            lemma_first_of_none(zip_checks, z);
        }
        assert forall|d: int| 0 <= d < e.deletes.len() implies is_word(#[trigger] e.deletes[d]) by {
            lemma_first_of_none(delete_checks, d);
        }
    }
    if entry_fields_are_words(e) {
        lemma_first_of_all_none(zip_checks);
        lemma_first_of_all_none(delete_checks);
    }
}

proof fn lemma_first_of_all_none(checks: Seq<Option<ProblemView>>)
    requires
        forall|i: int| 0 <= i < checks.len() ==> (#[trigger] checks[i]) is None,
    ensures
        first_of(checks) is None,
    decreases checks.len(),
{
    if checks.len() > 0 {
        assert forall|i: int| 0 <= i < checks.drop_first().len() implies (
        #[trigger] checks.drop_first()[i]) is None by {
            assert(checks.drop_first()[i] == checks[i + 1]);
        }
        lemma_first_of_all_none(checks.drop_first());
    }
}

/// In a manifest that passes validation, every field of every release is a
/// single non-empty word, and every zip and full download URL ends in a
/// filename.
pub proof fn lemma_valid_manifest_has_words(m: Seq<EntryView>)
    requires
        first_problem(m) is None,
    ensures
        forall|k: int| 0 <= k < m.len() ==> entry_fields_are_words(#[trigger] m[k]),
{
    lemma_entries_ok(m, None);
    assert forall|k: int| 0 <= k < m.len() implies entry_fields_are_words(#[trigger] m[k]) by {
        lemma_entry_fields_problem_words(m[k]);
    }
}

/// What a servable manifest must be: every version a dotted number,
/// versions strictly ascending, every field a word and every zip and full
/// download URL ending in a filename.
pub open spec fn is_valid_manifest(m: Seq<EntryView>) -> bool {
    &&& forall|k: int| 0 <= k < m.len() ==> key_of((#[trigger] m[k]).version) is Some
    &&& forall|a: int, b: int|
        0 <= a < b < m.len() ==> key_less(entry_key(#[trigger] m[a]), entry_key(#[trigger] m[b]))
    &&& forall|k: int| 0 <= k < m.len() ==> entry_fields_are_words(#[trigger] m[k])
}

proof fn lemma_entries_none(entries: Seq<EntryView>, previous: Option<(Seq<char>, Seq<u64>)>)
    requires
        is_valid_manifest(entries),
        entries.len() > 0 ==> (previous matches Some((_, previous_key)) ==> key_less(
            previous_key,
            entry_key(entries[0]),
        )),
    ensures
        entries_problem(entries, previous) is None,
    decreases entries.len(),
{
    if entries.len() > 0 {
        let e = entries[0];
        let rest = entries.drop_first();
        lemma_entry_fields_problem_words(e);
        assert forall|k: int| 0 <= k < rest.len() implies key_of((#[trigger] rest[k]).version)
            is Some && entry_fields_are_words(rest[k]) by {
            assert(rest[k] == entries[k + 1]);
        }
        assert forall|a: int, b: int| 0 <= a < b < rest.len() implies key_less(
            entry_key(#[trigger] rest[a]),
            entry_key(#[trigger] rest[b]),
        ) by {
            assert(rest[a] == entries[a + 1]);
            assert(rest[b] == entries[b + 1]);
        }
        if rest.len() > 0 {
            assert(rest[0] == entries[1]);
        }
        lemma_entries_none(rest, Some((e.version, entry_key(e))));
    }
}

/// Validation accepts exactly the servable manifests.
pub proof fn lemma_validation_accepts_exactly_valid_manifests(m: Seq<EntryView>)
    ensures
        first_problem(m) is None <==> is_valid_manifest(m),
{
    if first_problem(m) is None {
        lemma_valid_manifest_ascends(m);
        lemma_valid_manifest_has_words(m);
    }
    if is_valid_manifest(m) {
        lemma_entries_none(m, None);
    }
}


/// A manifest that lists one version twice fails validation.
pub proof fn lemma_duplicate_versions_rejected(m: Seq<EntryView>, i: int, j: int)
    requires
        0 <= i < j < m.len(),
        m[i].version == m[j].version,
    ensures
        first_problem(m) is Some,
{
    if first_problem(m) is None {
        lemma_valid_manifest_ascends(m);
        lemma_key_less_irreflexive(entry_key(m[i]));
    }
}

} // verus!
