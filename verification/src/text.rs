//! Characters, strings and the few text operations the line formats need.
use vstd::prelude::*;
use vstd::string::StringExecFns;

verus! {

/// Whether `c` is one of the characters Unicode gives the `White_Space` property
/// (the characters `char::is_whitespace` accepts).
pub open spec fn is_white_space(c: char) -> bool {
    let n = c as u32;
    ||| 0x09 <= n <= 0x0d
    ||| n == 0x20
    ||| n == 0x85
    ||| n == 0xa0
    ||| n == 0x1680
    ||| 0x2000 <= n <= 0x200a
    ||| n == 0x2028
    ||| n == 0x2029
    ||| n == 0x202f
    ||| n == 0x205f
    ||| n == 0x3000
}

/// Whether some character of `s` is white space.
pub open spec fn has_white_space(s: Seq<char>) -> bool {
    exists|i: int| 0 <= i < s.len() && is_white_space(#[trigger] s[i])
}

/// The view of an optional string.
pub open spec fn opt_view(o: Option<String>) -> Option<Seq<char>> {
    match o {
        Some(s) => Some(s@),
        None => None,
    }
}

/// The views of a sequence of strings.
pub open spec fn strings_view(v: Seq<String>) -> Seq<Seq<char>> {
    v.map_values(|s: String| s@)
}

/// What follows the last `/` of `s`; all of `s` when it holds no `/`.
pub open spec fn basename(s: Seq<char>) -> Seq<char>
    decreases s.len(),
{
    if s.len() == 0 {
        s
    } else if s.last() == '/' {
        Seq::empty()
    } else {
        basename(s.drop_last()).push(s.last())
    }
}

/// The pieces of `s` between occurrences of `sep`, as `str::split` yields them:
/// never empty, and one more piece than `s` holds separators.
pub open spec fn split(s: Seq<char>, sep: char) -> Seq<Seq<char>>
    decreases s.len(),
{
    if s.len() == 0 {
        seq![Seq::empty()]
    } else {
        let pieces = split(s.drop_last(), sep);
        if s.last() == sep {
            pieces.push(Seq::empty())
        } else {
            pieces.update(pieces.len() - 1, pieces.last().push(s.last()))
        }
    }
}

/// `lines` joined by `sep`, with nothing after the last one.
pub open spec fn join(lines: Seq<Seq<char>>, sep: char) -> Seq<char>
    decreases lines.len(),
{
    if lines.len() == 0 {
        Seq::empty()
    } else if lines.len() == 1 {
        lines[0]
    } else {
        join(lines.drop_last(), sep) + seq![sep] + lines.last()
    }
}

/// A string without `sep` is one piece.
pub proof fn lemma_split_without_separator(s: Seq<char>, sep: char)
    requires
        !s.contains(sep),
    ensures
        split(s, sep) == seq![s],
    decreases s.len(),
{
    if s.len() == 0 {
        assert(s =~= Seq::<char>::empty());
        assert(split(s, sep) =~= seq![s]);
    } else {
        assert(!s.drop_last().contains(sep)) by {
            if s.drop_last().contains(sep) {
                let k = choose|k: int| 0 <= k < s.drop_last().len() && s.drop_last()[k] == sep;
                assert(s[k] == sep);
            }
        }
        lemma_split_without_separator(s.drop_last(), sep);
        assert(s.last() != sep) by {
            assert(s[s.len() - 1] == s.last());
        }
        assert(s.drop_last().push(s.last()) =~= s);
        let pieces = split(s.drop_last(), sep);
        assert(pieces == seq![s.drop_last()]);
        assert(split(s, sep) == pieces.update(0, pieces.last().push(s.last())));
        assert(split(s, sep) =~= seq![s]);
    }
}

/// Splitting at a separator splits the two sides apart.
pub proof fn lemma_split_concat(a: Seq<char>, b: Seq<char>, sep: char)
    ensures
        split(a + seq![sep] + b, sep) == split(a, sep) + split(b, sep),
    decreases b.len(),
{
    let whole = a + seq![sep] + b;
    if b.len() == 0 {
        assert(whole.drop_last() =~= a);
        assert(split(whole, sep) =~= split(a, sep) + split(b, sep));
    } else {
        lemma_split_concat(a, b.drop_last(), sep);
        assert(whole.drop_last() =~= a + seq![sep] + b.drop_last());
        assert(whole.last() == b.last());
        lemma_split_nonempty(b.drop_last(), sep);
        assert(split(whole, sep) =~= split(a, sep) + split(b, sep));
    }
}

/// `split` never yields an empty list.
pub proof fn lemma_split_nonempty(s: Seq<char>, sep: char)
    ensures
        split(s, sep).len() > 0,
    decreases s.len(),
{
    if s.len() > 0 {
        lemma_split_nonempty(s.drop_last(), sep);
    }
}

/// Every character of `s` other than `sep` lies in one of its pieces.
pub proof fn lemma_split_keeps_characters(s: Seq<char>, sep: char, i: int)
    requires
        0 <= i < s.len(),
        s[i] != sep,
    ensures
        exists|p: int| 0 <= p < split(s, sep).len() && #[trigger] split(s, sep)[p].contains(s[i]),
    decreases s.len(),
{
    let pieces = split(s.drop_last(), sep);
    lemma_split_nonempty(s.drop_last(), sep);
    if i == s.len() - 1 {
        let p = pieces.len() - 1;
        assert(split(s, sep)[p] == pieces.last().push(s.last()));
        assert(split(s, sep)[p][pieces.last().len() as int] == s[i]);
        assert(split(s, sep)[p].contains(s[i]));
    } else {
        assert(s.drop_last()[i] == s[i]);
        lemma_split_keeps_characters(s.drop_last(), sep, i);
        let p = choose|p: int| 0 <= p < pieces.len() && #[trigger] pieces[p].contains(s[i]);
        let k = choose|k: int| 0 <= k < pieces[p].len() && pieces[p][k] == s[i];
        if s.last() == sep {
            assert(split(s, sep)[p] == pieces[p]);
        } else if p == pieces.len() - 1 {
            assert(split(s, sep)[p][k] == s[i]);
        } else {
            assert(split(s, sep)[p] == pieces[p]);
        }
        assert(split(s, sep)[p].contains(s[i]));
    }
}

/// Lines that hold no separator come back out of their join.
pub proof fn lemma_split_join(lines: Seq<Seq<char>>, sep: char)
    requires
        lines.len() > 0,
        forall|i: int| 0 <= i < lines.len() ==> !(#[trigger] lines[i]).contains(sep),
    ensures
        split(join(lines, sep), sep) == lines,
    decreases lines.len(),
{
    if lines.len() == 1 {
        lemma_split_without_separator(lines[0], sep);
        assert(lines =~= seq![lines[0]]);
    } else {
        let rest = lines.drop_last();
        assert forall|i: int| 0 <= i < rest.len() implies !(#[trigger] rest[i]).contains(sep) by {
            assert(rest[i] == lines[i]);
        }
        lemma_split_join(rest, sep);
        assert(!lines[lines.len() - 1].contains(sep));
        lemma_split_without_separator(lines.last(), sep);
        lemma_split_concat(join(rest, sep), lines.last(), sep);
        assert(lines =~= rest + seq![lines.last()]);
    }
}

/// Extending the last line extends the join.
proof fn lemma_join_extend_last(lines: Seq<Seq<char>>, sep: char, c: char)
    requires
        lines.len() > 0,
    ensures
        join(lines.update(lines.len() - 1, lines.last().push(c)), sep) == join(lines, sep).push(c),
{
    let extended = lines.update(lines.len() - 1, lines.last().push(c));
    if lines.len() > 1 {
        assert(extended.drop_last() =~= lines.drop_last());
        assert(join(extended, sep) =~= join(lines, sep).push(c));
    }
}

/// Joining the pieces of `s` at `sep` gives `s` back.
pub proof fn lemma_join_split(s: Seq<char>, sep: char)
    ensures
        join(split(s, sep), sep) == s,
    decreases s.len(),
{
    if s.len() == 0 {
        assert(s =~= Seq::<char>::empty());
    } else {
        let pieces = split(s.drop_last(), sep);
        lemma_join_split(s.drop_last(), sep);
        lemma_split_nonempty(s.drop_last(), sep);
        if s.last() == sep {
            let more = pieces.push(Seq::<char>::empty());
            assert(more.drop_last() =~= pieces);
            assert(join(more, sep) =~= s);
        } else {
            lemma_join_extend_last(pieces, sep, s.last());
            assert(s.drop_last().push(s.last()) =~= s);
        }
    }
}

/// What `format!("{:?}", s)` gives for a string: `s` quoted, with the
/// characters that need it escaped.
pub uninterp spec fn debug_quoted(s: Seq<char>) -> Seq<char>;

/// `<str as Debug>::fmt`, through `format!`.
#[verifier::external_body]
pub(crate) fn debug_str(s: &str) -> (r: String)
    ensures
        r@ == debug_quoted(s@),
{
    format!("{:?}", s)
}

/// `String::push`: appends one character.
#[verifier::external_body]
pub(crate) fn push_char(s: &mut String, c: char)
    ensures
        final(s)@ == old(s)@.push(c),
{
    s.push(c);
}

pub fn char_is_white_space(c: char) -> (r: bool)
    ensures
        r == is_white_space(c),
{
    let n = c as u32;
    (0x09 <= n && n <= 0x0d) || n == 0x20 || n == 0x85 || n == 0xa0 || n == 0x1680 || (0x2000
        <= n && n <= 0x200a) || n == 0x2028 || n == 0x2029 || n == 0x202f || n == 0x205f || n
        == 0x3000
}

/// The characters of `s`, in order.
pub fn chars_of(s: &str) -> (v: Vec<char>)
    ensures
        v@ == s@,
{
    let mut v: Vec<char> = Vec::new();
    for c in it: s.chars()
        invariant
            v@ == it.seq().take(it.index() as int),
    {
        v.push(c);
    }
    v
}

/// Whether some character of `s` is white space.
pub fn contains_white_space(s: &str) -> (r: bool)
    ensures
        r == has_white_space(s@),
{
    let cs = chars_of(s);
    let mut i: usize = 0;
    while i < cs.len()
        invariant
            cs@ == s@,
            i <= cs.len(),
            forall|j: int| 0 <= j < i ==> !is_white_space(#[trigger] cs@[j]),
        decreases cs.len() - i,
    {
        if char_is_white_space(cs[i]) {
            return true;
        }
        i = i + 1;
    }
    false
}

/// Appends the characters of `s` to `out`.
pub fn append_chars(out: &mut String, s: &Vec<char>)
    ensures
        final(out)@ == old(out)@ + s@,
{
    let mut i: usize = 0;
    while i < s.len()
        invariant
            i <= s.len(),
            out@ == old(out)@ + s@.take(i as int),
        decreases s.len() - i,
    {
        push_char(out, s[i]);
        i = i + 1;
        assert(s@.take(i as int) =~= s@.take(i - 1).push(s@[i - 1]));
    }
    assert(s@.take(s.len() as int) =~= s@);
}

/// Appends `s` to `out`.
pub fn append_str(out: &mut String, s: &str)
    ensures
        final(out)@ == old(out)@ + s@,
{
    out.append(s);
}

/// A new string holding `s`.
pub fn string_of(s: &str) -> (r: String)
    ensures
        r@ == s@,
{
    s.to_owned()
}

/// What follows the last `/` of `s`; all of `s` when it holds no `/`.
pub fn basename_of(s: &str) -> (r: Vec<char>)
    ensures
        r@ == basename(s@),
{
    let cs = chars_of(s);
    let mut tail: Vec<char> = Vec::new();
    let mut i: usize = 0;
    while i < cs.len()
        invariant
            cs@ == s@,
            i <= cs.len(),
            tail@ == basename(cs@.take(i as int)),
        decreases cs.len() - i,
    {
        let c = cs[i];
        assert(cs@.take(i + 1).drop_last() =~= cs@.take(i as int));
        if c == '/' {
            tail = Vec::new();
        } else {
            tail.push(c);
        }
        i = i + 1;
    }
    assert(cs@.take(cs.len() as int) =~= cs@);
    tail
}

/// The pieces of `s` between occurrences of `sep`.
pub fn split_chars(s: &Vec<char>, sep: char) -> (r: Vec<Vec<char>>)
    ensures
        r@.map_values(|p: Vec<char>| p@) == split(s@, sep),
{
    let mut pieces: Vec<Vec<char>> = Vec::new();
    let mut current: Vec<char> = Vec::new();
    let mut i: usize = 0;
    while i < s.len()
        invariant
            i <= s.len(),
            pieces@.map_values(|p: Vec<char>| p@).push(current@) == split(s@.take(i as int), sep),
        decreases s.len() - i,
    {
        let c = s[i];
        let ghost before = pieces@.map_values(|p: Vec<char>| p@).push(current@);
        assert(s@.take(i + 1).drop_last() =~= s@.take(i as int));
        if c == sep {
            let done = current;
            pieces.push(done);
            current = Vec::new();
            assert(pieces@.map_values(|p: Vec<char>| p@).push(current@) =~= before.push(
                Seq::empty(),
            ));
        } else {
            current.push(c);
            assert(pieces@.map_values(|p: Vec<char>| p@).push(current@) =~= before.update(
                before.len() - 1,
                before.last().push(c),
            ));
        }
        i = i + 1;
    }
    assert(s@.take(s.len() as int) =~= s@);
    let ghost before = pieces@.map_values(|p: Vec<char>| p@).push(current@);
    pieces.push(current);
    assert(pieces@.map_values(|p: Vec<char>| p@) =~= before);
    pieces
}

/// The strings of `lines` joined by newlines, with no newline after the last.
pub fn join_lines(lines: &Vec<String>) -> (r: String)
    ensures
        r@ == join(strings_view(lines@), '\n'),
{
    let mut out = String::new();
    let mut i: usize = 0;
    while i < lines.len()
        invariant
            i <= lines.len(),
            out@ == join(strings_view(lines@).take(i as int), '\n'),
        decreases lines.len() - i,
    {
        let ghost prefix = strings_view(lines@).take(i as int);
        if i > 0 {
            push_char(&mut out, '\n');
        }
        append_str(&mut out, lines[i].as_str());
        i = i + 1;
        assert(strings_view(lines@).take(i as int).drop_last() =~= prefix);
    }
    assert(strings_view(lines@).take(lines.len() as int) =~= strings_view(lines@));
    out
}

/// Among ASCII characters, exactly tab, line feed, vertical tab, form feed,
/// carriage return and space are white space; no visible ASCII character is.
pub proof fn lemma_ascii_white_space(c: char)
    ensures
        (c as u32) < 128 ==> (is_white_space(c) <==> (c == '\t' || c == '\n' || c == '\x0B' || c
            == '\x0C' || c == '\r' || c == ' ')),
        '!' <= c <= '~' ==> !is_white_space(c),
{
}

/// A string holds white space exactly when one of its characters is white
/// space; in particular a string of visible ASCII characters holds none.
pub proof fn lemma_has_white_space_exactly(s: Seq<char>)
    ensures
        has_white_space(s) <==> exists|i: int| 0 <= i < s.len() && is_white_space(#[trigger] s[i]),
        (forall|i: int| 0 <= i < s.len() ==> '!' <= #[trigger] s[i] <= '~') ==> !has_white_space(s),
{
}

/// The basename of `s` is the longest end of `s` that holds no `/`: `s` ends
/// with it, and the character before it, if any, is a `/`.
pub proof fn lemma_basename_is_last_segment(s: Seq<char>)
    ensures
        basename(s).len() <= s.len(),
        s.skip(s.len() - basename(s).len()) == basename(s),
        !basename(s).contains('/'),
        basename(s).len() < s.len() ==> s[s.len() - basename(s).len() - 1] == '/',
    decreases s.len(),
{
    if s.len() > 0 && s.last() != '/' {
        let rest = s.drop_last();
        lemma_basename_is_last_segment(rest);
        let b = basename(rest);
        assert(s.skip(s.len() - basename(s).len()) =~= rest.skip(rest.len() - b.len()).push(
            s.last(),
        ));
        if basename(s).contains('/') {
            let k = choose|k: int| 0 <= k < basename(s).len() && basename(s)[k] == '/';
            if k < b.len() {
                assert(b[k] == '/');
            }
        }
        if basename(s).len() < s.len() {
            assert(s[s.len() - basename(s).len() - 1] == rest[rest.len() - b.len() - 1]);
        }
    } else if s.len() > 0 {
        assert(s.skip(s.len() as int) =~= Seq::<char>::empty());
    } else {
        assert(s.skip(0) =~= s);
    }
}

} // verus!
