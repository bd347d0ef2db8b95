//! Rendering the manifest into the legacy text files the updaters read.
use vstd::prelude::*;

use crate::manifest::{
    entry_fields_are_words, entry_key, first_problem, is_word, lemma_valid_manifest_ascends,
    lemma_valid_manifest_has_words, EntryView, Manifest,
};
use crate::text::{
    append_chars, append_str, basename, basename_of, has_white_space, is_white_space, join,
    join_lines, lemma_basename_is_last_segment, lemma_split_concat, lemma_split_join,
    lemma_split_without_separator, push_char, split, strings_view,
};
use crate::version::{key_less, key_of, lemma_keyed_version_has_no_white_space};

verus! {

/// Legacy field describing the folder the zip should have been extracted to.
/// Unused, but kept so as not to break existing client parsers.
pub const DESCRIPTION: &'static str = "Assets";

/// The rendered text files, kept so requests don't re-render.
#[derive(Debug)]
pub struct Rendered {
    pub version_txt: String,
    pub delete_txt: String,
    pub install_txt: Option<String>,
}

pub struct RenderedView {
    pub version_txt: Seq<char>,
    pub delete_txt: Seq<char>,
    pub install_txt: Option<Seq<char>>,
}

impl View for Rendered {
    type V = RenderedView;

    open spec fn view(&self) -> RenderedView {
        RenderedView {
            version_txt: self.version_txt@,
            delete_txt: self.delete_txt@,
            install_txt: match self.install_txt {
                Some(s) => Some(s@),
                None => None,
            },
        }
    }
}

/// Where the updaters drop a zip before extracting it: the filename from the
/// URL, at the install root.
pub open spec fn install_path(url: Seq<char>) -> Seq<char> {
    seq!['/'] + basename(url)
}

/// `<version> <url> <path> <description>`.
pub open spec fn version_line(version: Seq<char>, url: Seq<char>) -> Seq<char> {
    version + seq![' '] + url + seq![' '] + install_path(url) + seq![' '] + DESCRIPTION@
}

/// `<version> <path>`.
pub open spec fn delete_line(version: Seq<char>, path: Seq<char>) -> Seq<char> {
    version + seq![' '] + path
}

/// The version lines of one release, one per zip.
pub open spec fn entry_version_lines(e: EntryView) -> Seq<Seq<char>> {
    e.zips.map_values(|url: Seq<char>| version_line(e.version, url))
}

/// The delete lines of one release, one per deleted file.
pub open spec fn entry_delete_lines(e: EntryView) -> Seq<Seq<char>> {
    e.deletes.map_values(|path: Seq<char>| delete_line(e.version, path))
}

/// All version lines of the releases `m`, in order.
pub open spec fn version_lines(m: Seq<EntryView>) -> Seq<Seq<char>>
    decreases m.len(),
{
    if m.len() == 0 {
        Seq::empty()
    } else {
        version_lines(m.drop_last()) + entry_version_lines(m.last())
    }
}

/// All delete lines of the releases `m`, in order.
pub open spec fn delete_lines(m: Seq<EntryView>) -> Seq<Seq<char>>
    decreases m.len(),
{
    if m.len() == 0 {
        Seq::empty()
    } else {
        delete_lines(m.drop_last()) + entry_delete_lines(m.last())
    }
}

/// The full download of the last release that has one.
pub open spec fn newest_full_download(m: Seq<EntryView>) -> Option<Seq<char>>
    decreases m.len(),
{
    if m.len() == 0 {
        None
    } else if m.last().full_download is Some {
        m.last().full_download
    } else {
        newest_full_download(m.drop_last())
    }
}

/// The three served files of the releases `m`.
pub open spec fn rendered_view(m: Seq<EntryView>) -> RenderedView {
    RenderedView {
        version_txt: join(version_lines(m), '\n'),
        delete_txt: join(delete_lines(m), '\n'),
        install_txt: newest_full_download(m),
    }
}

/// Where the updaters drop a zip before extracting it: the filename from the
/// URL, at the install root.
pub fn install_path_of(url: &str) -> (r: String)
    ensures
        r@ == install_path(url@),
{
    let mut r = String::new();
    push_char(&mut r, '/');
    let name = basename_of(url);
    append_chars(&mut r, &name);
    r
}

fn format_version_line(version: &str, url: &str) -> (r: String)
    ensures
        r@ == version_line(version@, url@),
{
    let mut line = String::new();
    append_str(&mut line, version);
    push_char(&mut line, ' ');
    append_str(&mut line, url);
    push_char(&mut line, ' ');
    let path = install_path_of(url);
    append_str(&mut line, path.as_str());
    push_char(&mut line, ' ');
    append_str(&mut line, DESCRIPTION);
    line
}

fn format_delete_line(version: &str, path: &str) -> (r: String)
    ensures
        r@ == delete_line(version@, path@),
{
    let mut line = String::new();
    append_str(&mut line, version);
    push_char(&mut line, ' ');
    append_str(&mut line, path);
    line
}

impl Manifest {
    /// Renders the three served files.
    pub fn render(&self) -> (r: Rendered)
        ensures
            r@ == rendered_view(self@),
    {
        Rendered {
            version_txt: self.render_version_txt(),
            delete_txt: self.render_delete_txt(),
            install_txt: self.render_install_txt(),
        }
    }

    /// `<version> <url> <path> <description>`, one line per zip.
    fn render_version_txt(&self) -> (r: String)
        ensures
            r@ == join(version_lines(self@), '\n'),
    {
        let ghost m = self@;
        let mut lines: Vec<String> = Vec::new();
        let mut i: usize = 0;
        while i < self.versions.len()
            invariant
                m == self@,
                i <= self.versions.len(),
                strings_view(lines@) == version_lines(m.take(i as int)),
            decreases self.versions.len() - i,
        {
            let entry = &self.versions[i];
            let ghost e = entry@;
            assert(m[i as int] == e);
            let ghost before = strings_view(lines@);
            let mut j: usize = 0;
            while j < entry.zips.len()
                invariant
                    e == entry@,
                    j <= entry.zips.len(),
                    strings_view(lines@) == before + entry_version_lines(e).take(j as int),
                decreases entry.zips.len() - j,
            {
                let line = format_version_line(entry.version.as_str(), entry.zips[j].as_str());
                let ghost previous_lines = strings_view(lines@);
                lines.push(line);
                assert(strings_view(lines@) =~= previous_lines.push(line@));
                assert(entry_version_lines(e).take(j + 1) =~= entry_version_lines(e).take(
                    j as int,
                ).push(line@));
                assert(strings_view(lines@) =~= before + entry_version_lines(e).take(j + 1));
                j = j + 1;
            }
            assert(entry_version_lines(e).take(j as int) =~= entry_version_lines(e));
            assert(m.take(i + 1).drop_last() =~= m.take(i as int));
            i = i + 1;
        }
        assert(m.take(i as int) =~= m);
        join_lines(&lines)
    }

    /// `<version> <path>`, one line per deleted file.
    fn render_delete_txt(&self) -> (r: String)
        ensures
            r@ == join(delete_lines(self@), '\n'),
    {
        let ghost m = self@;
        let mut lines: Vec<String> = Vec::new();
        let mut i: usize = 0;
        while i < self.versions.len()
            invariant
                m == self@,
                i <= self.versions.len(),
                strings_view(lines@) == delete_lines(m.take(i as int)),
            decreases self.versions.len() - i,
        {
            let entry = &self.versions[i];
            let ghost e = entry@;
            assert(m[i as int] == e);
            let ghost before = strings_view(lines@);
            let mut j: usize = 0;
            while j < entry.deletes.len()
                invariant
                    e == entry@,
                    j <= entry.deletes.len(),
                    strings_view(lines@) == before + entry_delete_lines(e).take(j as int),
                decreases entry.deletes.len() - j,
            {
                let line = format_delete_line(entry.version.as_str(), entry.deletes[j].as_str());
                let ghost previous_lines = strings_view(lines@);
                lines.push(line);
                assert(strings_view(lines@) =~= previous_lines.push(line@));
                assert(entry_delete_lines(e).take(j + 1) =~= entry_delete_lines(e).take(
                    j as int,
                ).push(line@));
                assert(strings_view(lines@) =~= before + entry_delete_lines(e).take(j + 1));
                j = j + 1;
            }
            assert(entry_delete_lines(e).take(j as int) =~= entry_delete_lines(e));
            assert(m.take(i + 1).drop_last() =~= m.take(i as int));
            i = i + 1;
        }
        assert(m.take(i as int) =~= m);
        join_lines(&lines)
    }

    /// The newest full download in the manifest.
    fn render_install_txt(&self) -> (r: Option<String>)
        ensures
            match r {
                Some(s) => newest_full_download(self@) == Some(s@),
                None => newest_full_download(self@) is None,
            },
    {
        let ghost m = self@;
        let mut i: usize = self.versions.len();
        assert(m.take(i as int) =~= m);
        while i > 0
            invariant
                m == self@,
                i <= self.versions.len(),
                newest_full_download(m) == newest_full_download(m.take(i as int)),
            decreases i,
        {
            let entry = &self.versions[i - 1];
            assert(m[i - 1] == entry@);
            assert(m.take(i as int).drop_last() =~= m.take(i - 1));
            match &entry.full_download {
                Some(url) => {
                    return Some(url.clone());
                },
                None => {},
            }
            i = i - 1;
        }
        None
    }
}


/// The four columns the updaters read from a version line.
pub open spec fn version_record(version: Seq<char>, url: Seq<char>) -> Seq<Seq<char>> {
    seq![version, url, install_path(url), DESCRIPTION@]
}

/// The two columns of a delete line.
pub open spec fn delete_record(version: Seq<char>, path: Seq<char>) -> Seq<Seq<char>> {
    seq![version, path]
}

/// The records of the version file of the releases `m`, one per zip.
pub open spec fn version_records(m: Seq<EntryView>) -> Seq<Seq<Seq<char>>>
    decreases m.len(),
{
    if m.len() == 0 {
        Seq::empty()
    } else {
        version_records(m.drop_last()) + m.last().zips.map_values(
            |url: Seq<char>| version_record(m.last().version, url),
        )
    }
}

/// The records of the delete file of the releases `m`, one per deleted file.
pub open spec fn delete_records(m: Seq<EntryView>) -> Seq<Seq<Seq<char>>>
    decreases m.len(),
{
    if m.len() == 0 {
        Seq::empty()
    } else {
        delete_records(m.drop_last()) + m.last().deletes.map_values(
            |path: Seq<char>| delete_record(m.last().version, path),
        )
    }
}

proof fn lemma_word_excludes(s: Seq<char>)
    requires
        !has_white_space(s),
    ensures
        !s.contains(' '),
        !s.contains('\n'),
{
    if s.contains(' ') {
        let k = choose|k: int| 0 <= k < s.len() && s[k] == ' ';
        assert(is_white_space(s[k]));
    }
    if s.contains('\n') {
        let k = choose|k: int| 0 <= k < s.len() && s[k] == '\n';
        assert(is_white_space(s[k]));
    }
}

proof fn lemma_basename_has_no_white_space(s: Seq<char>)
    requires
        !has_white_space(s),
    ensures
        !has_white_space(basename(s)),
    decreases s.len(),
{
    if s.len() > 0 && s.last() != '/' {
        assert(!has_white_space(s.drop_last())) by {
            if has_white_space(s.drop_last()) {
                let k = choose|k: int|
                    0 <= k < s.drop_last().len() && is_white_space(#[trigger] s.drop_last()[k]);
                assert(s[k] == s.drop_last()[k]);
            }
        }
        lemma_basename_has_no_white_space(s.drop_last());
        let b = basename(s);
        assert forall|k: int| 0 <= k < b.len() implies !is_white_space(#[trigger] b[k]) by {
            if k == b.len() - 1 {
                assert(b[k] == s[s.len() - 1]);
            } else {
                assert(b[k] == basename(s.drop_last())[k]);
            }
        }
    }
}

proof fn lemma_description_is_a_word()
    ensures
        !DESCRIPTION@.contains(' '),
        !DESCRIPTION@.contains('\n'),
{
    reveal_strlit("Assets");
    assert(DESCRIPTION@ == "Assets"@);
    assert(!has_white_space(DESCRIPTION@));
    lemma_word_excludes(DESCRIPTION@);
}

proof fn lemma_version_line_reads_back(version: Seq<char>, url: Seq<char>)
    requires
        !has_white_space(version),
        !has_white_space(url),
    ensures
        !version_line(version, url).contains('\n'),
        split(version_line(version, url), ' ') == version_record(version, url),
{
    let path = install_path(url);
    lemma_basename_has_no_white_space(url);
    lemma_word_excludes(version);
    lemma_word_excludes(url);
    lemma_word_excludes(basename(url));
    lemma_description_is_a_word();
    assert(!path.contains(' ') && !path.contains('\n')) by {
        if path.contains(' ') || path.contains('\n') {
            let k = choose|k: int| 0 <= k < path.len() && (path[k] == ' ' || path[k] == '\n');
            assert(path[k] == basename(url)[k - 1]);
        }
    }
    lemma_split_without_separator(version, ' ');
    lemma_split_without_separator(url, ' ');
    lemma_split_without_separator(path, ' ');
    lemma_split_without_separator(DESCRIPTION@, ' ');
    lemma_split_concat(version, url, ' ');
    lemma_split_concat(version + seq![' '] + url, path, ' ');
    lemma_split_concat(version + seq![' '] + url + seq![' '] + path, DESCRIPTION@, ' ');
    assert(split(version_line(version, url), ' ') =~= version_record(version, url));
    let line = version_line(version, url);
    if line.contains('\n') {
        let k = choose|k: int| 0 <= k < line.len() && line[k] == '\n';
        let v = version.len() as int;
        let u = url.len() as int;
        let p = path.len() as int;
        if k < v {
            assert(line[k] == version[k]);
        } else if k == v {
        } else if k < v + 1 + u {
            assert(line[k] == url[k - v - 1]);
        } else if k == v + 1 + u {
        } else if k < v + 2 + u + p {
            assert(line[k] == path[k - v - 2 - u]);
        } else if k == v + 2 + u + p {
        } else {
            assert(line[k] == DESCRIPTION@[k - v - 3 - u - p]);
        }
    }
}

proof fn lemma_delete_line_reads_back(version: Seq<char>, path: Seq<char>)
    requires
        !has_white_space(version),
        !has_white_space(path),
    ensures
        !delete_line(version, path).contains('\n'),
        split(delete_line(version, path), ' ') == delete_record(version, path),
{
    lemma_word_excludes(version);
    lemma_word_excludes(path);
    lemma_split_without_separator(version, ' ');
    lemma_split_without_separator(path, ' ');
    lemma_split_concat(version, path, ' ');
    assert(split(delete_line(version, path), ' ') =~= delete_record(version, path));
    let line = delete_line(version, path);
    if line.contains('\n') {
        let k = choose|k: int| 0 <= k < line.len() && line[k] == '\n';
        if k < version.len() {
            assert(line[k] == version[k]);
        } else if k > version.len() {
            assert(line[k] == path[k - version.len() - 1]);
        }
    }
}

proof fn lemma_version_lines_read_back(m: Seq<EntryView>)
    requires
        forall|k: int| 0 <= k < m.len() ==> key_of((#[trigger] m[k]).version) is Some,
        forall|k: int| 0 <= k < m.len() ==> entry_fields_are_words(#[trigger] m[k]),
    ensures
        version_lines(m).len() == version_records(m).len(),
        forall|i: int|
            0 <= i < version_lines(m).len() ==> !(#[trigger] version_lines(m)[i]).contains('\n'),
        forall|i: int|
            0 <= i < version_lines(m).len() ==> split(#[trigger] version_lines(m)[i], ' ')
                == version_records(m)[i],
    decreases m.len(),
{
    if m.len() > 0 {
        let rest = m.drop_last();
        let e = m.last();
        assert(e == m[m.len() - 1]);
        assert forall|k: int| 0 <= k < rest.len() implies key_of((#[trigger] rest[k]).version)
            is Some && entry_fields_are_words(rest[k]) by {
            assert(rest[k] == m[k]);
        }
        lemma_version_lines_read_back(rest);
        lemma_keyed_version_has_no_white_space(e.version);
        let lines = version_lines(m);
        let n = version_lines(rest).len();
        assert forall|i: int| 0 <= i < lines.len() implies !(#[trigger] lines[i]).contains('\n')
            && split(lines[i], ' ') == version_records(m)[i] by {
            if i >= n {
                let z = i - n;
                assert(is_word(e.zips[z]));
                lemma_version_line_reads_back(e.version, e.zips[z]);
                assert(lines[i] == version_line(e.version, e.zips[z]));
                assert(version_records(m)[i] == version_record(e.version, e.zips[z]));
            } else {
                assert(lines[i] == version_lines(rest)[i]);
                assert(version_records(m)[i] == version_records(rest)[i]);
            }
        }
    }
}

proof fn lemma_delete_lines_read_back(m: Seq<EntryView>)
    requires
        forall|k: int| 0 <= k < m.len() ==> key_of((#[trigger] m[k]).version) is Some,
        forall|k: int| 0 <= k < m.len() ==> entry_fields_are_words(#[trigger] m[k]),
    ensures
        delete_lines(m).len() == delete_records(m).len(),
        forall|i: int|
            0 <= i < delete_lines(m).len() ==> !(#[trigger] delete_lines(m)[i]).contains('\n'),
        forall|i: int|
            0 <= i < delete_lines(m).len() ==> split(#[trigger] delete_lines(m)[i], ' ')
                == delete_records(m)[i],
    decreases m.len(),
{
    if m.len() > 0 {
        let rest = m.drop_last();
        let e = m.last();
        assert(e == m[m.len() - 1]);
        assert forall|k: int| 0 <= k < rest.len() implies key_of((#[trigger] rest[k]).version)
            is Some && entry_fields_are_words(rest[k]) by {
            assert(rest[k] == m[k]);
        }
        lemma_delete_lines_read_back(rest);
        lemma_keyed_version_has_no_white_space(e.version);
        let lines = delete_lines(m);
        let n = delete_lines(rest).len();
        assert forall|i: int| 0 <= i < lines.len() implies !(#[trigger] lines[i]).contains('\n')
            && split(lines[i], ' ') == delete_records(m)[i] by {
            if i >= n {
                let d = i - n;
                assert(is_word(e.deletes[d]));
                lemma_delete_line_reads_back(e.version, e.deletes[d]);
                assert(lines[i] == delete_line(e.version, e.deletes[d]));
                assert(delete_records(m)[i] == delete_record(e.version, e.deletes[d]));
            } else {
                assert(lines[i] == delete_lines(rest)[i]);
                assert(delete_records(m)[i] == delete_records(rest)[i]);
            }
        }
    }
}

/// The version file of a valid manifest reads back, split into lines and
/// each line into space-separated columns, as one record per zip:
/// `<version> <url> <path> <description>`. With no zips at all it is empty.
pub proof fn lemma_version_file_reads_back(m: Seq<EntryView>)
    requires
        first_problem(m) is None,
    ensures
        version_records(m).len() == 0 ==> rendered_view(m).version_txt.len() == 0,
        version_records(m).len() > 0 ==> split(rendered_view(m).version_txt, '\n').map_values(
            |line: Seq<char>| split(line, ' '),
        ) == version_records(m),
{
    lemma_valid_manifest_ascends(m);
    lemma_valid_manifest_has_words(m);
    lemma_version_lines_read_back(m);
    let lines = version_lines(m);
    if lines.len() > 0 {
        lemma_split_join(lines, '\n');
        assert(split(rendered_view(m).version_txt, '\n').map_values(
            |line: Seq<char>| split(line, ' '),
        ) =~= version_records(m));
    }
}

/// The delete file of a valid manifest reads back, split into lines and each
/// line into space-separated columns, as one record per deleted file:
/// `<version> <path>`. With no deletes at all it is empty.
pub proof fn lemma_delete_file_reads_back(m: Seq<EntryView>)
    requires
        first_problem(m) is None,
    ensures
        delete_records(m).len() == 0 ==> rendered_view(m).delete_txt.len() == 0,
        delete_records(m).len() > 0 ==> split(rendered_view(m).delete_txt, '\n').map_values(
            |line: Seq<char>| split(line, ' '),
        ) == delete_records(m),
{
    lemma_valid_manifest_ascends(m);
    lemma_valid_manifest_has_words(m);
    lemma_delete_lines_read_back(m);
    let lines = delete_lines(m);
    if lines.len() > 0 {
        lemma_split_join(lines, '\n');
        assert(split(rendered_view(m).delete_txt, '\n').map_values(
            |line: Seq<char>| split(line, ' '),
        ) =~= delete_records(m));
    }
}


proof fn lemma_newest_is_last_with_full_download(m: Seq<EntryView>)
    ensures
        newest_full_download(m) is None <==> forall|k: int|
            0 <= k < m.len() ==> (#[trigger] m[k]).full_download is None,
        newest_full_download(m) is Some ==> exists|i: int|
            0 <= i < m.len() && (#[trigger] m[i]).full_download == newest_full_download(m) && forall|
                j: int,
            |
                i < j < m.len() ==> (#[trigger] m[j]).full_download is None,
    decreases m.len(),
{
    if m.len() > 0 {
        let rest = m.drop_last();
        lemma_newest_is_last_with_full_download(rest);
        assert forall|k: int| 0 <= k < rest.len() implies (#[trigger] rest[k]).full_download
            == m[k].full_download by {}
        let last = m.len() - 1;
        assert(m[last] == m.last());
        if m.last().full_download is None && newest_full_download(rest) is Some {
            let i = choose|i: int|
                0 <= i < rest.len() && (#[trigger] rest[i]).full_download == newest_full_download(
                    rest,
                ) && forall|j: int| i < j < rest.len() ==> (#[trigger] rest[j]).full_download is None;
            assert(m[i] == rest[i]);
            assert forall|j: int| i < j < m.len() implies (#[trigger] m[j]).full_download is None by {
                if j < last {
                    assert(m[j] == rest[j]);
                }
            }
        }
        if m.last().full_download is None && newest_full_download(rest) is None {
            assert forall|k: int| 0 <= k < m.len() implies (#[trigger] m[k]).full_download
                is None by {
                if k < last {
                    assert(m[k] == rest[k]);
                }
            }
        }
    }
}

/// The install file of a valid manifest serves the full download of the
/// release with the highest version among those that have one, and is
/// absent exactly when no release has one.
pub proof fn lemma_install_is_newest_full_download(m: Seq<EntryView>)
    requires
        first_problem(m) is None,
    ensures
        rendered_view(m).install_txt is None <==> forall|k: int|
            0 <= k < m.len() ==> (#[trigger] m[k]).full_download is None,
        rendered_view(m).install_txt is Some ==> exists|i: int|
            0 <= i < m.len() && (#[trigger] m[i]).full_download == rendered_view(m).install_txt
                && forall|j: int|
                0 <= j < m.len() && j != i && (#[trigger] m[j]).full_download is Some ==> key_less(
                    entry_key(m[j]),
                    entry_key(m[i]),
                ),
{
    lemma_newest_is_last_with_full_download(m);
    lemma_valid_manifest_ascends(m);
    if newest_full_download(m) is Some {
        let i = choose|i: int|
            0 <= i < m.len() && (#[trigger] m[i]).full_download == newest_full_download(m) && forall|
                j: int,
            |
                i < j < m.len() ==> (#[trigger] m[j]).full_download is None;
        assert forall|j: int|
            0 <= j < m.len() && j != i && (#[trigger] m[j]).full_download is Some implies key_less(
            entry_key(m[j]),
            entry_key(m[i]),
        ) by {
            if j > i {
                assert(m[j].full_download is None);
            }
        }
    }
}

proof fn lemma_version_lines_concat(a: Seq<EntryView>, b: Seq<EntryView>)
    ensures
        version_lines(a + b) == version_lines(a) + version_lines(b),
    decreases b.len(),
{
    if b.len() == 0 {
        assert(a + b =~= a);
        assert(version_lines(a) + version_lines(b) =~= version_lines(a));
    } else {
        lemma_version_lines_concat(a, b.drop_last());
        assert((a + b).drop_last() =~= a + b.drop_last());
        assert((a + b).last() == b.last());
        assert(version_lines(a + b) =~= version_lines(a) + version_lines(b));
    }
}

/// A release that ships no zip renders no version line: putting one anywhere
/// in the manifest, or taking one out, leaves the version file as it was.
pub proof fn lemma_zipless_release_leaves_version_file(m: Seq<EntryView>, i: int, e: EntryView)
    requires
        0 <= i <= m.len(),
        e.zips.len() == 0,
    ensures
        rendered_view(m.insert(i, e)).version_txt == rendered_view(m).version_txt,
{
    let before = m.take(i);
    let after = m.skip(i);
    assert(m.insert(i, e) =~= before + seq![e] + after);
    assert(m =~= before + after);
    lemma_version_lines_concat(before + seq![e], after);
    lemma_version_lines_concat(before, seq![e]);
    lemma_version_lines_concat(before, after);
    assert(seq![e].drop_last() =~= Seq::<EntryView>::empty());
    assert(entry_version_lines(e) =~= Seq::<Seq<char>>::empty());
    let single = seq![e];
    assert(single.last() == e);
    assert(version_lines(single.drop_last()) =~= Seq::<Seq<char>>::empty());
    assert(version_lines(single) == version_lines(single.drop_last()) + entry_version_lines(e));
    assert(version_lines(single) =~= Seq::<Seq<char>>::empty());
    assert(version_lines(before + seq![e]) =~= version_lines(before));
}

/// The install path of a zip is `/` and then the URL's filename: the longest
/// end of the URL that holds no `/`, taken whole.
pub proof fn lemma_install_path_is_url_filename(url: Seq<char>)
    ensures
        install_path(url).len() >= 1,
        install_path(url)[0] == '/',
        install_path(url).len() - 1 <= url.len(),
        url.skip(url.len() - (install_path(url).len() - 1)) == install_path(url).drop_first(),
        !install_path(url).drop_first().contains('/'),
        install_path(url).len() - 1 < url.len() ==> url[url.len() - install_path(url).len()]
            == '/',
{
    lemma_basename_is_last_segment(url);
    assert(install_path(url).drop_first() =~= basename(url));
}

} // verus!
