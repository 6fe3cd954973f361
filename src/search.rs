//! Keyword search over the text files of a directory: the line matcher, the
//! choice of files that get a worker, and the gathering of their matches.
use vstd::prelude::*;
use vstd::string::*;
use crate::text::{chars_of, contains_chars, contains_seq, decimal, decimal_of};

verus! {

/// One matching line of a file: its 1-based line number and its text as it
/// stands in the file.
pub struct LineMatch {
    pub line_number: usize,
    pub line_text: String,
}

impl View for LineMatch {
    type V = (nat, Seq<char>);

    open spec fn view(&self) -> (nat, Seq<char>) {
        (self.line_number as nat, self.line_text@)
    }
}

impl LineMatch {
    /// The match as `<line_number>: <line_text>`.
    pub fn render(&self) -> (r: String)
        ensures
            r@ == decimal_of(self.line_number as nat) + ": "@ + self.line_text@,
    {
        let mut r = decimal(self.line_number as u64);
        r.append(": ");
        r.append(self.line_text.as_str());
        r
    }
}

/// One matching line, tagged with the path of the file it comes from.
pub struct FileMatch {
    pub path: String,
    pub line_number: usize,
    pub line_text: String,
}

impl View for FileMatch {
    type V = (Seq<char>, nat, Seq<char>);

    open spec fn view(&self) -> (Seq<char>, nat, Seq<char>) {
        (self.path@, self.line_number as nat, self.line_text@)
    }
}

impl FileMatch {
    /// The match as `<path>: <line_number>: <line_text>`.
    pub fn render(&self) -> (r: String)
        ensures
            r@ == self.path@ + ": "@ + decimal_of(self.line_number as nat) + ": "@
                + self.line_text@,
    {
        let mut r = String::from_str(self.path.as_str());
        r.append(": ");
        r.append(decimal(self.line_number as u64).as_str());
        r.append(": ");
        r.append(self.line_text.as_str());
        r
    }
}

/// The ways a search fails as a whole.
#[derive(Clone, Copy, Debug, PartialEq, Eq, Structural)]
pub enum SearchError {
    /// The path is missing or is not a directory.
    NotADirectory,
    /// The directory's entries could not be listed.
    DirectoryReadError,
}

pub open spec fn strings_view(v: Seq<String>) -> Seq<Seq<char>> {
    v.map_values(|s: String| s@)
}

pub open spec fn line_matches_view(v: Seq<LineMatch>) -> Seq<(nat, Seq<char>)> {
    v.map_values(|m: LineMatch| m@)
}

pub open spec fn file_matches_view(v: Seq<FileMatch>) -> Seq<(Seq<char>, nat, Seq<char>)> {
    v.map_values(|m: FileMatch| m@)
}

/// What the text is lower-cased to when case is ignored.
pub uninterp spec fn lower_of(s: Seq<char>) -> Seq<char>;

/// Relies on `str::to_lowercase`: the result depends on the characters alone,
/// and the empty text stays empty.
#[verifier::external_body]
fn lowercase(s: &str) -> (r: String)
    ensures
        r@ == lower_of(s@),
        s@.len() == 0 ==> r@.len() == 0,
{
    s.to_lowercase()
}

/// The matches among the first `n` lines: line `i` (1-based) is kept, with
/// its text from `lines`, when `probes[i - 1]` contains `key`.
pub open spec fn matches_upto(
    lines: Seq<Seq<char>>,
    probes: Seq<Seq<char>>,
    key: Seq<char>,
    n: nat,
) -> Seq<(nat, Seq<char>)>
    decreases n,
{
    if n == 0 {
        Seq::empty()
    } else {
        let prev = matches_upto(lines, probes, key, (n - 1) as nat);
        if contains_seq(probes[n - 1], key) {
            prev.push((n, lines[n - 1]))
        } else {
            prev
        }
    }
}

/// The lines as they are tested for the keyword.
pub open spec fn probes_of(lines: Seq<Seq<char>>, case_insensitive: bool) -> Seq<Seq<char>> {
    if case_insensitive {
        lines.map_values(|l: Seq<char>| lower_of(l))
    } else {
        lines
    }
}

/// The keyword as it is looked for (the empty keyword stays empty).
pub open spec fn key_of(keyword: Seq<char>, case_insensitive: bool) -> Seq<char> {
    if case_insensitive && keyword.len() > 0 {
        lower_of(keyword)
    } else {
        keyword
    }
}

/// The matching lines of a file, in order, with their 1-based numbers.
pub open spec fn line_matches(
    lines: Seq<Seq<char>>,
    keyword: Seq<char>,
    case_insensitive: bool,
) -> Seq<(nat, Seq<char>)> {
    matches_upto(
        lines,
        probes_of(lines, case_insensitive),
        key_of(keyword, case_insensitive),
        lines.len(),
    )
}

/// Keeps line `i` of `lines` where `probes[i]` contains `key`; `probes` holds
/// the lines as they are to be tested (lower-cased, for a search that ignores
/// case).
pub fn select_matching_lines(lines: &Vec<String>, probes: &Vec<String>, key: &str) -> (r: Vec<
    LineMatch,
>)
    requires
        lines@.len() == probes@.len(),
    ensures
        line_matches_view(r@) == matches_upto(
            strings_view(lines@),
            strings_view(probes@),
            key@,
            lines@.len(),
        ),
{
    let key_chars = chars_of(key);
    let mut r: Vec<LineMatch> = Vec::new();
    let mut i: usize = 0;
    while i < lines.len()
        invariant
            lines@.len() == probes@.len(),
            i <= lines@.len(),
            key_chars@ == key@,
            line_matches_view(r@) == matches_upto(
                strings_view(lines@),
                strings_view(probes@),
                key@,
                i as nat,
            ),
        decreases lines@.len() - i,
    {
        let probe = chars_of(probes[i].as_str());
        if contains_chars(&probe, &key_chars) {
            let m = LineMatch { line_number: i + 1, line_text: lines[i].clone() };
            let ghost old_r = r@;
            r.push(m);
            assert(line_matches_view(r@) =~= line_matches_view(old_r).push(m@));
        }
        i = i + 1;
    }
    r
}

/// The matching lines of a file, given as its lines without terminators.
/// A line matches when it contains `keyword`; with `case_insensitive`, when
/// its lower-cased form contains the lower-cased keyword. The text returned
/// is always the line as it was given.
pub fn match_lines(lines: &Vec<String>, keyword: &str, case_insensitive: bool) -> (r: Vec<
    LineMatch,
>)
    ensures
        line_matches_view(r@) == line_matches(strings_view(lines@), keyword@, case_insensitive),
{
    if case_insensitive {
        let mut probes: Vec<String> = Vec::new();
        let mut i: usize = 0;
        while i < lines.len()
            invariant
                i <= lines@.len(),
                probes@.len() == i,
                forall|j: int| 0 <= j < i ==> #[trigger] probes@[j]@ == lower_of(lines@[j]@),
            decreases lines@.len() - i,
        {
            probes.push(lowercase(lines[i].as_str()));
            i = i + 1;
        }
        let key = lowercase(keyword);
        assert(key@ == key_of(keyword@, true));
        assert(strings_view(probes@) =~= probes_of(strings_view(lines@), true));
        select_matching_lines(lines, &probes, key.as_str())
    } else {
        select_matching_lines(lines, lines, keyword)
    }
}

} // verus!

verus! {

/// Tags each line match with the path of its file.
pub open spec fn tag(path: Seq<char>, ms: Seq<(nat, Seq<char>)>) -> Seq<(Seq<char>, nat, Seq<char>)> {
    ms.map_values(|m: (nat, Seq<char>)| (path, m.0, m.1))
}

/// The work of one worker: the matching lines of the file at `path`, tagged
/// with that path.
pub fn file_matches(path: &str, lines: &Vec<String>, keyword: &str, case_insensitive: bool) -> (r:
    Vec<FileMatch>)
    ensures
        file_matches_view(r@) == tag(
            path@,
            line_matches(strings_view(lines@), keyword@, case_insensitive),
        ),
{
    let ms = match_lines(lines, keyword, case_insensitive);
    let mut r: Vec<FileMatch> = Vec::new();
    let mut i: usize = 0;
    while i < ms.len()
        invariant
            i <= ms@.len(),
            file_matches_view(r@) == tag(path@, line_matches_view(ms@.take(i as int))),
        decreases ms@.len() - i,
    {
        let m = FileMatch {
            path: String::from_str(path),
            line_number: ms[i].line_number,
            line_text: ms[i].line_text.clone(),
        };
        let ghost old_r = r@;
        assert(m@ == (path@, ms@[i as int]@.0, ms@[i as int]@.1));
        r.push(m);
        i = i + 1;
        assert(line_matches_view(ms@.take(i as int)) =~= line_matches_view(
            ms@.take(i - 1 as int),
        ).push(ms@[i - 1]@));
        assert(file_matches_view(r@) =~= file_matches_view(old_r).push(m@));
        assert(file_matches_view(r@) =~= tag(path@, line_matches_view(ms@.take(i as int))));
    }
    assert(ms@.take(ms@.len() as int) =~= ms@);
    r
}

/// The name of a text file: its extension, the part after the last `.`
/// where that dot is not the name's first character, is exactly `txt`.
pub open spec fn is_text_name(name: Seq<char>) -> bool {
    &&& name.len() >= 5
    &&& name[name.len() - 4] == '.'
    &&& name[name.len() - 3] == 't'
    &&& name[name.len() - 2] == 'x'
    &&& name[name.len() - 1] == 't'
}

/// Whether a file of this name is searched.
pub fn is_text_file_name(name: &str) -> (r: bool)
    ensures
        r == is_text_name(name@),
{
    let c = chars_of(name);
    let n = c.len();
    n >= 5 && c[n - 4] == '.' && c[n - 3] == 't' && c[n - 2] == 'x' && c[n - 1] == 't'
}

/// A direct child of the searched directory.
pub struct DirEntry {
    /// The child's full path.
    pub path: String,
    /// The child's own name within the directory.
    pub name: String,
    /// The child is a regular file.
    pub is_file: bool,
}

impl View for DirEntry {
    type V = (Seq<char>, Seq<char>, bool);

    open spec fn view(&self) -> (Seq<char>, Seq<char>, bool) {
        (self.path@, self.name@, self.is_file)
    }
}

pub open spec fn entries_view(v: Seq<DirEntry>) -> Seq<(Seq<char>, Seq<char>, bool)> {
    v.map_values(|e: DirEntry| e@)
}

/// An entry gets a worker: it is a regular file with a text file's name.
pub open spec fn is_eligible(e: (Seq<char>, Seq<char>, bool)) -> bool {
    e.2 && is_text_name(e.1)
}

/// The paths of the eligible entries, in listing order.
pub open spec fn eligible_paths(es: Seq<(Seq<char>, Seq<char>, bool)>) -> Seq<Seq<char>>
    decreases es.len(),
{
    if es.len() == 0 {
        Seq::empty()
    } else {
        let prev = eligible_paths(es.drop_last());
        if is_eligible(es.last()) {
            prev.push(es.last().0)
        } else {
            prev
        }
    }
}

/// The files that a search dispatches a worker to, or why it fails before any
/// worker starts. `is_dir` tells whether the searched path is an existing
/// directory; `listing` holds its entries, or `None` where listing them failed.
pub fn dispatch_plan(is_dir: bool, listing: Option<Vec<DirEntry>>) -> (r: Result<
    Vec<String>,
    SearchError,
>)
    ensures
        !is_dir ==> r == Err::<Vec<String>, SearchError>(SearchError::NotADirectory),
        is_dir && listing is None ==> r == Err::<Vec<String>, SearchError>(
            SearchError::DirectoryReadError,
        ),
        is_dir && listing is Some ==> r is Ok && strings_view(r->Ok_0@) == eligible_paths(
            entries_view(listing->Some_0@),
        ),
{
    if !is_dir {
        return Err(SearchError::NotADirectory);
    }
    match listing {
        None => Err(SearchError::DirectoryReadError),
        Some(entries) => {
            let mut paths: Vec<String> = Vec::new();
            let mut i: usize = 0;
            while i < entries.len()
                invariant
                    i <= entries@.len(),
                    strings_view(paths@) == eligible_paths(
                        entries_view(entries@).take(i as int),
                    ),
                decreases entries@.len() - i,
            {
                let ghost es = entries_view(entries@).take(i as int + 1);
                assert(es.drop_last() =~= entries_view(entries@).take(i as int));
                if entries[i].is_file && is_text_file_name(entries[i].name.as_str()) {
                    paths.push(entries[i].path.clone());
                }
                i = i + 1;
                assert(strings_view(paths@) =~= eligible_paths(es));
            }
            assert(entries_view(entries@).take(entries@.len() as int) =~= entries_view(
                entries@,
            ));
            Ok(paths)
        },
    }
}

} // verus!

verus! {

/// A file that a worker was dispatched to: its path, and its lines where it
/// could be read (`None` where opening or reading it failed).
pub struct FileLines {
    pub path: String,
    pub lines: Option<Vec<String>>,
}

impl View for FileLines {
    type V = (Seq<char>, Option<Seq<Seq<char>>>);

    open spec fn view(&self) -> (Seq<char>, Option<Seq<Seq<char>>>) {
        (
            self.path@,
            match self.lines {
                Some(v) => Some(strings_view(v@)),
                None => None,
            },
        )
    }
}

pub open spec fn files_view(v: Seq<FileLines>) -> Seq<(Seq<char>, Option<Seq<Seq<char>>>)> {
    v.map_values(|f: FileLines| f@)
}

/// What one file contributes: nothing where it could not be read, else its
/// matching lines tagged with its path.
pub open spec fn file_part(
    f: (Seq<char>, Option<Seq<Seq<char>>>),
    keyword: Seq<char>,
    case_insensitive: bool,
) -> Seq<(Seq<char>, nat, Seq<char>)> {
    match f.1 {
        Some(ls) => tag(f.0, line_matches(ls, keyword, case_insensitive)),
        None => Seq::empty(),
    }
}

/// The results of all files, file after file.
pub open spec fn gathered(
    files: Seq<(Seq<char>, Option<Seq<Seq<char>>>)>,
    keyword: Seq<char>,
    case_insensitive: bool,
) -> Seq<(Seq<char>, nat, Seq<char>)>
    decreases files.len(),
{
    if files.len() == 0 {
        Seq::empty()
    } else {
        gathered(files.drop_last(), keyword, case_insensitive) + file_part(
            files.last(),
            keyword,
            case_insensitive,
        )
    }
}

/// The combined results of the dispatched files, each file's matches in line
/// order, the files in the order given. A file that could not be read adds
/// nothing and fails nothing. Workers that run concurrently deliver the same
/// matches, with the files' runs interleaved in arrival order.
pub fn collect_matches(files: &Vec<FileLines>, keyword: &str, case_insensitive: bool) -> (r: Vec<
    FileMatch,
>)
    ensures
        file_matches_view(r@) == gathered(files_view(files@), keyword@, case_insensitive),
{
    let mut r: Vec<FileMatch> = Vec::new();
    let mut i: usize = 0;
    while i < files.len()
        invariant
            i <= files@.len(),
            file_matches_view(r@) == gathered(
                files_view(files@).take(i as int),
                keyword@,
                case_insensitive,
            ),
        decreases files@.len() - i,
    {
        let ghost before = r@;
        let ghost fs = files_view(files@).take(i as int + 1);
        assert(fs.drop_last() =~= files_view(files@).take(i as int));
        match &files[i].lines {
            Some(lines) => {
                let mut part = file_matches(files[i].path.as_str(), lines, keyword, case_insensitive);
                let ghost got = part@;
                r.append(&mut part);
                assert(file_matches_view(r@) =~= file_matches_view(before) + file_matches_view(
                    got,
                ));
            },
            None => {
                assert(file_part(fs.last(), keyword@, case_insensitive) =~= Seq::empty());
                assert(file_matches_view(r@) =~= file_matches_view(before) + Seq::empty());
            },
        }
        i = i + 1;
    }
    assert(files_view(files@).take(files@.len() as int) =~= files_view(files@));
    r
}

} // verus!

verus! {

proof fn lemma_matches_upto_shape(
    lines: Seq<Seq<char>>,
    probes: Seq<Seq<char>>,
    key: Seq<char>,
    n: nat,
)
    requires
        n <= lines.len(),
    ensures
        forall|i: int|
            0 <= i < matches_upto(lines, probes, key, n).len() ==> {
                let m = #[trigger] matches_upto(lines, probes, key, n)[i];
                1 <= m.0 <= n && m.1 == lines[m.0 - 1]
            },
        forall|i: int, j: int|
            0 <= i < j < matches_upto(lines, probes, key, n).len() ==> (#[trigger] matches_upto(
                lines,
                probes,
                key,
                n,
            )[i]).0 < (#[trigger] matches_upto(lines, probes, key, n)[j]).0,
    decreases n,
{
    if n > 0 {
        lemma_matches_upto_shape(lines, probes, key, (n - 1) as nat);
        let prev = matches_upto(lines, probes, key, (n - 1) as nat);
        let cur = matches_upto(lines, probes, key, n);
        if contains_seq(probes[n - 1], key) {
            assert(cur == prev.push((n, lines[n - 1])));
            assert forall|i: int| 0 <= i < cur.len() implies {
                let m = #[trigger] cur[i];
                1 <= m.0 <= n && m.1 == lines[m.0 - 1]
            } by {
                if i < prev.len() {
                    assert(cur[i] == prev[i]);
                }
            }
            assert forall|i: int, j: int| 0 <= i < j < cur.len() implies (#[trigger] cur[i]).0 < (
            #[trigger] cur[j]).0 by {
                assert(cur[i] == prev[i]);
                if j < prev.len() {
                    assert(cur[j] == prev[j]);
                }
            }
        } else {
            assert(cur == prev);
        }
    }
}

/// Within one file, the matches come in strictly increasing line order, each
/// with a line number between 1 and the file's line count and with the text
/// of that line.
pub proof fn lemma_line_numbers_increase(
    lines: Seq<Seq<char>>,
    keyword: Seq<char>,
    case_insensitive: bool,
)
    ensures
        forall|i: int|
            0 <= i < line_matches(lines, keyword, case_insensitive).len() ==> {
                let m = #[trigger] line_matches(lines, keyword, case_insensitive)[i];
                1 <= m.0 <= lines.len() && m.1 == lines[m.0 - 1]
            },
        forall|i: int, j: int|
            0 <= i < j < line_matches(lines, keyword, case_insensitive).len() ==> (
            #[trigger] line_matches(lines, keyword, case_insensitive)[i]).0 < (
            #[trigger] line_matches(lines, keyword, case_insensitive)[j]).0,
{
    lemma_matches_upto_shape(
        lines,
        probes_of(lines, case_insensitive),
        key_of(keyword, case_insensitive),
        lines.len(),
    );
}

proof fn lemma_empty_key_upto(lines: Seq<Seq<char>>, probes: Seq<Seq<char>>, n: nat)
    requires
        n <= lines.len(),
    ensures
        matches_upto(lines, probes, Seq::empty(), n) == Seq::new(
            n,
            |i: int| ((i + 1) as nat, lines[i]),
        ),
    decreases n,
{
    if n > 0 {
        lemma_empty_key_upto(lines, probes, (n - 1) as nat);
        let p = probes[n - 1];
        let e = Seq::<char>::empty();
        assert(p.subrange(0int, 0int + e.len()) =~= e);
        assert(contains_seq(p, Seq::empty()));
        assert(matches_upto(lines, probes, Seq::empty(), n) =~= Seq::new(
            n,
            |i: int| ((i + 1) as nat, lines[i]),
        ));
    } else {
        assert(matches_upto(lines, probes, Seq::empty(), n) =~= Seq::new(
            n,
            |i: int| ((i + 1) as nat, lines[i]),
        ));
    }
}

/// Every line of a file under its 1-based number, in order.
pub open spec fn numbered(lines: Seq<Seq<char>>) -> Seq<(nat, Seq<char>)> {
    Seq::new(lines.len(), |i: int| ((i + 1) as nat, lines[i]))
}

/// Every line of every readable file, tagged and numbered, file after file.
pub open spec fn all_lines(files: Seq<(Seq<char>, Option<Seq<Seq<char>>>)>) -> Seq<
    (Seq<char>, nat, Seq<char>),
>
    decreases files.len(),
{
    if files.len() == 0 {
        Seq::empty()
    } else {
        all_lines(files.drop_last()) + match files.last().1 {
            Some(ls) => tag(files.last().0, numbered(ls)),
            None => Seq::empty(),
        }
    }
}

/// With the empty keyword every line matches: each line of the file appears
/// exactly once, under its own number, in order.
pub proof fn lemma_empty_keyword_keeps_every_line(lines: Seq<Seq<char>>, case_insensitive: bool)
    ensures
        line_matches(lines, Seq::empty(), case_insensitive) == numbered(lines),
{
    assert(key_of(Seq::empty(), case_insensitive) =~= Seq::<char>::empty());
    lemma_empty_key_upto(lines, probes_of(lines, case_insensitive), lines.len());
}

/// With the empty keyword a search finds every line of every file it could
/// read, each exactly once.
pub proof fn lemma_empty_keyword_gathers_every_line(
    files: Seq<(Seq<char>, Option<Seq<Seq<char>>>)>,
    case_insensitive: bool,
)
    ensures
        gathered(files, Seq::empty(), case_insensitive) == all_lines(files),
    decreases files.len(),
{
    if files.len() > 0 {
        lemma_empty_keyword_gathers_every_line(files.drop_last(), case_insensitive);
        if files.last().1 is Some {
            lemma_empty_keyword_keeps_every_line(files.last().1->Some_0, case_insensitive);
        }
    }
}

proof fn lemma_no_hit_upto(lines: Seq<Seq<char>>, probes: Seq<Seq<char>>, key: Seq<char>, n: nat)
    requires
        n <= probes.len(),
        forall|i: int| 0 <= i < probes.len() ==> !contains_seq(#[trigger] probes[i], key),
    ensures
        matches_upto(lines, probes, key, n) == Seq::<(nat, Seq<char>)>::empty(),
    decreases n,
{
    if n > 0 {
        lemma_no_hit_upto(lines, probes, key, (n - 1) as nat);
    }
}

/// A file none of whose lines matches, or that could not be read, adds
/// nothing to a search over it and one other file: the result is the other
/// file's matches, whichever of the two comes first.
pub proof fn lemma_file_without_match_adds_nothing(
    a: (Seq<char>, Option<Seq<Seq<char>>>),
    b: (Seq<char>, Option<Seq<Seq<char>>>),
    keyword: Seq<char>,
    case_insensitive: bool,
)
    requires
        b.1 is Some ==> forall|i: int|
            0 <= i < b.1->Some_0.len() ==> !contains_seq(
                #[trigger] probes_of(b.1->Some_0, case_insensitive)[i],
                key_of(keyword, case_insensitive),
            ),
    ensures
        gathered(seq![a, b], keyword, case_insensitive) == file_part(a, keyword, case_insensitive),
        gathered(seq![b, a], keyword, case_insensitive) == file_part(a, keyword, case_insensitive),
{
    if b.1 is Some {
        let ls = b.1->Some_0;
        lemma_no_hit_upto(
            ls,
            probes_of(ls, case_insensitive),
            key_of(keyword, case_insensitive),
            ls.len(),
        );
    }
    assert(file_part(b, keyword, case_insensitive) =~= Seq::empty());
    assert(seq![a, b].drop_last() =~= seq![a]);
    assert(seq![b, a].drop_last() =~= seq![b]);
    assert(seq![a].drop_last() =~= Seq::empty());
    assert(seq![b].drop_last() =~= Seq::empty());
    let none: Seq<(Seq<char>, Option<Seq<Seq<char>>>)> = Seq::empty();
    assert(gathered(none, keyword, case_insensitive) =~= Seq::empty());
    assert(seq![a].last() == a);
    assert(seq![b].last() == b);
    assert(seq![a, b].last() == b);
    assert(seq![b, a].last() == a);
    assert(gathered(seq![a], keyword, case_insensitive) =~= file_part(a, keyword, case_insensitive));
    assert(gathered(seq![b], keyword, case_insensitive) =~= Seq::empty());
    assert(gathered(seq![a, b], keyword, case_insensitive) =~= file_part(
        a,
        keyword,
        case_insensitive,
    ));
    assert(gathered(seq![b, a], keyword, case_insensitive) =~= file_part(
        a,
        keyword,
        case_insensitive,
    ));
}

proof fn lemma_gathered_concat(
    x: Seq<(Seq<char>, Option<Seq<Seq<char>>>)>,
    y: Seq<(Seq<char>, Option<Seq<Seq<char>>>)>,
    keyword: Seq<char>,
    case_insensitive: bool,
)
    ensures
        gathered(x + y, keyword, case_insensitive) == gathered(x, keyword, case_insensitive)
            + gathered(y, keyword, case_insensitive),
    decreases y.len(),
{
    if y.len() == 0 {
        assert(x + y =~= x);
        assert(gathered(x, keyword, case_insensitive) + gathered(y, keyword, case_insensitive)
            =~= gathered(x, keyword, case_insensitive));
    } else {
        assert((x + y).drop_last() =~= x + y.drop_last());
        lemma_gathered_concat(x, y.drop_last(), keyword, case_insensitive);
        assert(gathered(x + y, keyword, case_insensitive) =~= gathered(x, keyword, case_insensitive)
            + gathered(y, keyword, case_insensitive));
    }
}

/// The order in which two workers finish does not change what a search
/// finds: swapping two neighbouring files keeps the same matches, as an
/// unordered collection. Any reordering of the files is a series of such swaps.
pub proof fn lemma_arrival_order_irrelevant(
    before: Seq<(Seq<char>, Option<Seq<Seq<char>>>)>,
    a: (Seq<char>, Option<Seq<Seq<char>>>),
    b: (Seq<char>, Option<Seq<Seq<char>>>),
    after: Seq<(Seq<char>, Option<Seq<Seq<char>>>)>,
    keyword: Seq<char>,
    case_insensitive: bool,
)
    ensures
        gathered(before + seq![a, b] + after, keyword, case_insensitive).to_multiset()
            == gathered(before + seq![b, a] + after, keyword, case_insensitive).to_multiset(),
{
    let k = keyword;
    let c = case_insensitive;
    lemma_gathered_concat(before + seq![a, b], after, k, c);
    lemma_gathered_concat(before + seq![b, a], after, k, c);
    lemma_gathered_concat(before, seq![a, b], k, c);
    lemma_gathered_concat(before, seq![b, a], k, c);
    lemma_gathered_concat(seq![a], seq![b], k, c);
    lemma_gathered_concat(seq![b], seq![a], k, c);
    assert(seq![a] + seq![b] =~= seq![a, b]);
    assert(seq![b] + seq![a] =~= seq![b, a]);
    let ga = gathered(seq![a], k, c);
    let gb = gathered(seq![b], k, c);
    let gp = gathered(before, k, c);
    let gs = gathered(after, k, c);
    vstd::seq_lib::lemma_multiset_commutative(gp + (ga + gb), gs);
    vstd::seq_lib::lemma_multiset_commutative(gp + (gb + ga), gs);
    vstd::seq_lib::lemma_multiset_commutative(gp, ga + gb);
    vstd::seq_lib::lemma_multiset_commutative(gp, gb + ga);
    vstd::seq_lib::lemma_multiset_commutative(ga, gb);
    vstd::seq_lib::lemma_multiset_commutative(gb, ga);
    assert((ga + gb).to_multiset() =~= (gb + ga).to_multiset());
}

/// A directory none of whose entries has a text file's name gets no worker:
/// the search over it finds nothing and fails nothing.
pub proof fn lemma_no_text_files_no_workers(es: Seq<(Seq<char>, Seq<char>, bool)>)
    requires
        forall|i: int| 0 <= i < es.len() ==> !is_text_name(#[trigger] es[i].1),
    ensures
        eligible_paths(es) == Seq::<Seq<char>>::empty(),
    decreases es.len(),
{
    if es.len() > 0 {
        lemma_no_text_files_no_workers(es.drop_last());
    }
}

} // verus!
