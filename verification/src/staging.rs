//! The staging area: the paths that go into the next commit.

use crate::error::{not_found, not_found_cause, DvcsError, ErrorView};
use crate::repository::metadata_dir;
use crate::text::{chars_of, same_text, text_of_chars};
use vstd::prelude::*;
use vstd::string::*;

verus! {

/// The two characters at `i` are a component `..` of the path.
pub open spec fn is_dot_dot_at(p: Seq<char>, i: int) -> bool {
    &&& 0 <= i
    &&& i + 2 <= p.len()
    &&& p[i] == '.'
    &&& p[i + 1] == '.'
    &&& (i == 0 || p[i - 1] == '/')
    &&& (i + 2 == p.len() || p[i + 2] == '/')
}

/// The path steps out of a directory.
pub open spec fn has_traversal(p: Seq<char>) -> bool {
    exists|i: int| is_dot_dot_at(p, i)
}

/// The path is the metadata directory or lies in it.
pub open spec fn inside_metadata(p: Seq<char>) -> bool {
    let m = metadata_dir();
    &&& p.len() >= m.len()
    &&& p.subrange(0, m.len() as int) == m
    &&& (p.len() == m.len() || p[m.len() as int] == '/')
}

/// The path can be staged: it is relative, stays inside the working
/// directory and outside the metadata directory, and fits on a line.
pub open spec fn is_stageable_path(p: Seq<char>) -> bool {
    &&& p.len() > 0
    &&& p[0] != '/'
    &&& !has_traversal(p)
    &&& !inside_metadata(p)
    &&& !p.contains('\n')
    &&& !p.contains('\r')
}

/// No path occurs twice.
pub open spec fn no_duplicates(s: Seq<Seq<char>>) -> bool {
    forall|i: int, j: int| 0 <= i < j < s.len() ==> #[trigger] s[i] != #[trigger] s[j]
}

/// The place of the path `p` in `s`.
pub open spec fn staged_index(s: Seq<Seq<char>>, p: Seq<char>) -> int {
    choose|i: int| 0 <= i < s.len() && s[i] == p
}

/// The staged paths after `p` was added: a path that is staged already is
/// not staged again.
pub open spec fn with_path(s: Seq<Seq<char>>, p: Seq<char>) -> Seq<Seq<char>> {
    if s.contains(p) {
        s
    } else {
        s.push(p)
    }
}

/// The staged paths after `p` was removed.
pub open spec fn without_path(s: Seq<Seq<char>>, p: Seq<char>) -> Seq<Seq<char>> {
    if s.contains(p) {
        s.remove(staged_index(s, p))
    } else {
        s
    }
}

/// What staging the path answers with: the staged paths after it, or why
/// the path is refused. `exists` and `is_dir` are what the file system says
/// of the path.
pub open spec fn stage_add_result(
    s: Seq<Seq<char>>,
    path: Seq<char>,
    exists: bool,
    is_dir: bool,
) -> Result<Seq<Seq<char>>, ErrorView> {
    if !exists {
        Err(ErrorView::IOFailure { path: path, cause: not_found_cause() })
    } else if is_dir || !is_stageable_path(path) {
        Err(ErrorView::InvalidPath)
    } else {
        Ok(with_path(s, path))
    }
}

/// The staged paths after every file of a walk through the working
/// directory was staged: what is not a file, or cannot be staged, is passed
/// over.
pub open spec fn stage_all_spec(s: Seq<Seq<char>>, entries: Seq<(Seq<char>, bool)>) -> Seq<
    Seq<char>,
>
    decreases entries.len(),
{
    if entries.len() == 0 {
        s
    } else {
        let sofar = stage_all_spec(s, entries.drop_last());
        let e = entries.last();
        if e.1 && is_stageable_path(e.0) {
            with_path(sofar, e.0)
        } else {
            sofar
        }
    }
}

/// The text in which staged paths are kept: one path on each line.
pub open spec fn staging_text(s: Seq<Seq<char>>) -> Seq<char>
    decreases s.len(),
{
    if s.len() == 0 {
        Seq::empty()
    } else {
        staging_text(s.drop_last()) + s.last() + seq!['\n']
    }
}

/// A line without the carriage return that may end it.
pub open spec fn trim_line(line: Seq<char>) -> Seq<char> {
    if line.len() > 0 && line.last() == '\r' {
        line.drop_last()
    } else {
        line
    }
}

/// The staged paths after one more line was read: an empty line and a path
/// that was read before are passed over.
pub open spec fn with_line(s: Seq<Seq<char>>, line: Seq<char>) -> Seq<Seq<char>> {
    if trim_line(line).len() == 0 {
        s
    } else {
        with_path(s, trim_line(line))
    }
}

/// The paths of the complete lines of `text`, and the line that is begun
/// at its end.
pub open spec fn read_lines(text: Seq<char>) -> (Seq<Seq<char>>, Seq<char>)
    decreases text.len(),
{
    if text.len() == 0 {
        (Seq::empty(), Seq::empty())
    } else {
        let (done, line) = read_lines(text.drop_last());
        if text.last() == '\n' {
            (with_line(done, line), Seq::empty())
        } else {
            (done, line.push(text.last()))
        }
    }
}

/// The staged paths that a text holds: one on each line, the last line with
/// or without a line feed.
pub open spec fn staged_in_text(text: Seq<char>) -> Seq<Seq<char>> {
    with_line(read_lines(text).0, read_lines(text).1)
}

/// Adding a path that was not staged and removing it again leaves the staged
/// paths as they were.
pub proof fn lemma_add_then_remove(s: Seq<Seq<char>>, p: Seq<char>)
    requires
        no_duplicates(s),
        !s.contains(p),
    ensures
        without_path(with_path(s, p), p) == s,
{
    let t = s.push(p);
    assert(t[s.len() as int] == p);
    assert(t.contains(p));
    let i = staged_index(t, p);
    if i < s.len() {
        assert(s[i] == p);
        assert(s.contains(p));
    }
    assert(t.remove(i) =~= s);
}

/// The path fits on a line of its own: it is not empty, holds no line feed
/// and does not end in a carriage return.
pub open spec fn fits_on_a_line(p: Seq<char>) -> bool {
    &&& p.len() > 0
    &&& !p.contains('\n')
    &&& p.last() != '\r'
}

proof fn lemma_read_line(text: Seq<char>, line: Seq<char>)
    requires
        !line.contains('\n'),
    ensures
        read_lines(text + line) == (read_lines(text).0, read_lines(text).1 + line),
    decreases line.len(),
{
    if line.len() == 0 {
        assert(text + line =~= text);
        assert(read_lines(text).1 + line =~= read_lines(text).1);
    } else {
        let front = line.drop_last();
        assert forall|i: int| 0 <= i < front.len() implies front[i] != '\n' by {
            assert(line[i] == front[i]);
            assert(line.contains(line[i]));
        }
        lemma_read_line(text, front);
        let whole = text + line;
        assert(whole.drop_last() =~= text + front);
        assert(whole.last() == line.last());
        assert(line.contains(line[line.len() - 1]));
        assert(read_lines(text).1 + front.push(line.last()) =~= (read_lines(text).1 + front).push(
            line.last(),
        ));
        assert(front.push(line.last()) =~= line);
    }
}

proof fn lemma_read_staging_text(s: Seq<Seq<char>>)
    requires
        no_duplicates(s),
        forall|i: int| 0 <= i < s.len() ==> fits_on_a_line(#[trigger] s[i]),
    ensures
        read_lines(staging_text(s)) == (s, Seq::<char>::empty()),
    decreases s.len(),
{
    if s.len() > 0 {
        let front = s.drop_last();
        let line = s.last();
        assert forall|i: int, j: int| 0 <= i < j < front.len() implies #[trigger] front[i]
            != #[trigger] front[j] by {
            assert(front[i] == s[i] && front[j] == s[j]);
        }
        assert forall|i: int| 0 <= i < front.len() implies fits_on_a_line(#[trigger] front[i]) by {
            assert(front[i] == s[i]);
        }
        lemma_read_staging_text(front);
        let t = staging_text(front);
        lemma_read_line(t, line);
        let whole = t + line + seq!['\n'];
        assert(whole.drop_last() =~= t + line);
        assert(whole.last() == '\n');
        assert(Seq::<char>::empty() + line =~= line);
        assert(trim_line(line) == line);
        if front.contains(line) {
            let i = choose|i: int| 0 <= i < front.len() && front[i] == line;
            assert(s[i] != s[s.len() - 1]);
        }
        assert(front.push(line) =~= s);
    }
}

/// What is written to the staging text is read back from it: the same
/// paths in the same order.
pub proof fn lemma_staging_text_round_trip(s: Seq<Seq<char>>)
    requires
        no_duplicates(s),
        forall|i: int| 0 <= i < s.len() ==> fits_on_a_line(#[trigger] s[i]),
    ensures
        staged_in_text(staging_text(s)) == s,
{
    lemma_read_staging_text(s);
}

/// The texts of a vector of paths.
pub open spec fn staged_texts(v: Seq<String>) -> Seq<Seq<char>> {
    Seq::new(v.len(), |i: int| v[i]@)
}

/// The set of paths that are to go into the next commit.
#[derive(Debug, PartialEq, Eq)]
pub struct StagingArea {
    paths: Vec<String>,
}

impl View for StagingArea {
    type V = Seq<Seq<char>>;

    closed spec fn view(&self) -> Seq<Seq<char>> {
        staged_texts(self.paths@)
    }
}

impl Clone for StagingArea {
    fn clone(&self) -> (r: StagingArea)
        ensures
            r@ == self@,
    {
        StagingArea { paths: self.list() }
    }
}

impl StagingArea {
    /// No path is staged twice.
    pub open spec fn wf(&self) -> bool {
        no_duplicates(self@)
    }

    /// Nothing staged.
    pub fn new() -> (s: StagingArea)
        ensures
            s.wf(),
            s@ == Seq::<Seq<char>>::empty(),
    {
        let s = StagingArea { paths: Vec::new() };
        assert(s@ =~= Seq::<Seq<char>>::empty());
        s
    }

    /// Number of staged paths.
    pub fn len(&self) -> (n: usize)
        ensures
            n == self@.len(),
    {
        self.paths.len()
    }

    /// Where `path` is staged, if it is.
    fn find(&self, path: &str) -> (r: Option<usize>)
        requires
            self.wf(),
        ensures
            r is Some <==> self@.contains(path@),
            r matches Some(i) ==> i < self@.len() && self@[i as int] == path@ && staged_index(
                self@,
                path@,
            ) == i,
    {
        let mut i: usize = 0;
        while i < self.paths.len()
            invariant
                self.wf(),
                i <= self.paths.len(),
                self@.len() == self.paths.len(),
                forall|j: int| 0 <= j < i ==> self@[j] != path@,
            decreases self.paths.len() - i,
        {
            assert(self@[i as int] == self.paths@[i as int]@);
            if same_text(self.paths[i].as_str(), path) {
                proof {
                    let k = staged_index(self@, path@);
                    if k < i {
                        assert(self@[k] != self@[i as int]);
                    } else if k > i {
                        assert(self@[i as int] != self@[k]);
                    }
                }
                return Some(i);
            }
            i += 1;
        }
        None
    }

    /// Whether `path` is staged.
    pub fn contains(&self, path: &str) -> (r: bool)
        requires
            self.wf(),
        ensures
            r == self@.contains(path@),
    {
        self.find(path).is_some()
    }

    /// Stages `path` unless it is staged. Says whether it was added.
    pub fn add(&mut self, path: &str) -> (added: bool)
        requires
            old(self).wf(),
        ensures
            final(self).wf(),
            added == !old(self)@.contains(path@),
            final(self)@ == with_path(old(self)@, path@),
    {
        if self.contains(path) {
            false
        } else {
            let ghost before = self@;
            self.paths.push(path.to_owned());
            proof {
                assert(self@ =~= before.push(path@));
                assert forall|i: int, j: int| 0 <= i < j < self@.len() implies #[trigger] self@[i]
                    != #[trigger] self@[j] by {
                    if j < before.len() {
                        assert(self@[i] == before[i] && self@[j] == before[j]);
                    } else {
                        assert(self@[i] == before[i]);
                        assert(before.contains(before[i]));
                    }
                }
            }
            true
        }
    }

    /// Takes `path` out of the staged paths. Says whether it was staged.
    pub fn remove(&mut self, path: &str) -> (removed: bool)
        requires
            old(self).wf(),
        ensures
            final(self).wf(),
            removed == old(self)@.contains(path@),
            final(self)@ == without_path(old(self)@, path@),
    {
        match self.find(path) {
            Some(i) => {
                let ghost before = self@;
                let gone = self.paths.remove(i);
                proof {
                    assert(self@ =~= before.remove(i as int));
                    assert forall|a: int, b: int| 0 <= a < b < self@.len() implies #[trigger] self@[a]
                        != #[trigger] self@[b] by {
                        let x = if a < i { a } else { a + 1 };
                        let y = if b < i { b } else { b + 1 };
                        assert(self@[a] == before[x] && self@[b] == before[y]);
                    }
                }
                true
            },
            None => false,
        }
    }

    /// Unstages everything.
    pub fn clear(&mut self)
        ensures
            final(self).wf(),
            final(self)@ == Seq::<Seq<char>>::empty(),
    {
        self.paths = Vec::new();
        assert(self@ =~= Seq::<Seq<char>>::empty());
    }

    /// The staged paths, in the order in which they were staged.
    pub fn list(&self) -> (r: Vec<String>)
        ensures
            staged_texts(r@) == self@,
    {
        let mut out: Vec<String> = Vec::new();
        let mut i: usize = 0;
        while i < self.paths.len()
            invariant
                i <= self.paths.len(),
                out.len() == i,
                forall|j: int| 0 <= j < i ==> (#[trigger] out@[j])@ == self.paths@[j]@,
            decreases self.paths.len() - i,
        {
            out.push(self.paths[i].clone());
            i += 1;
        }
        assert(staged_texts(out@) =~= self@);
        out
    }

    /// The text in which the staged paths are kept on disk.
    pub fn to_text(&self) -> (r: String)
        ensures
            r@ == staging_text(self@),
    {
        let mut out = String::new();
        let mut i: usize = 0;
        while i < self.paths.len()
            invariant
                i <= self.paths.len(),
                self@.len() == self.paths.len(),
                out@ == staging_text(self@.take(i as int)),
            decreases self.paths.len() - i,
        {
            let ghost s = self@.take(i + 1);
            assert(s.drop_last() =~= self@.take(i as int));
            assert(s.last() == self.paths@[i as int]@);
            out.append(self.paths[i].as_str());
            out.append("\n");
            proof {
                reveal_strlit("\n");
                assert("\n"@ =~= seq!['\n']);
            }
            i += 1;
        }
        assert(self@.take(i as int) =~= self@);
        out
    }

    /// Reads the staged paths from the text in which they are kept. An empty
    /// text, as of a file that does not exist, stages nothing.
    pub fn from_text(text: &str) -> (s: StagingArea)
        ensures
            s.wf(),
            s@ == staged_in_text(text@),
    {
        let v = chars_of(text);
        let mut s = StagingArea::new();
        let mut line: Vec<char> = Vec::new();
        let mut i: usize = 0;
        assert(v@.take(0) =~= Seq::<char>::empty());
        while i < v.len()
            invariant
                i <= v.len(),
                v@ == text@,
                s.wf(),
                (s@, line@) == read_lines(v@.take(i as int)),
            decreases v.len() - i,
        {
            let ghost prefix = v@.take(i + 1);
            assert(prefix.drop_last() =~= v@.take(i as int));
            assert(prefix.last() == v@[i as int]);
            if v[i] == '\n' {
                s.add_line(&line);
                line = Vec::new();
            } else {
                line.push(v[i]);
            }
            i += 1;
        }
        assert(v@.take(i as int) =~= v@);
        s.add_line(&line);
        s
    }

    /// Stages the path that one line of the staging text holds.
    fn add_line(&mut self, line: &Vec<char>)
        requires
            old(self).wf(),
        ensures
            final(self).wf(),
            final(self)@ == with_line(old(self)@, line@),
    {
        let mut trimmed: Vec<char> = Vec::new();
        let n = if line.len() > 0 && line[line.len() - 1] == '\r' {
            line.len() - 1
        } else {
            line.len()
        };
        let mut i: usize = 0;
        while i < n
            invariant
                i <= n <= line.len(),
                trimmed@ == line@.take(i as int),
            decreases n - i,
        {
            trimmed.push(line[i]);
            assert(trimmed@ =~= line@.take(i + 1));
            i += 1;
        }
        assert(trimmed@ =~= trim_line(line@));
        if trimmed.len() > 0 {
            let path = text_of_chars(&trimmed);
            self.add(path.as_str());
        }
    }
}

/// The path with every backslash turned into a slash: paths are kept with
/// forward slashes whatever the host writes.
pub open spec fn normalized_path(p: Seq<char>) -> Seq<char> {
    Seq::new(
        p.len(),
        |i: int|
            if p[i] == '\\' {
                '/'
            } else {
                p[i]
            },
    )
}

/// Puts a path of the host into the form in which paths are kept.
pub fn normalize_path(path: &str) -> (r: String)
    ensures
        r@ == normalized_path(path@),
{
    let p = chars_of(path);
    let mut out: Vec<char> = Vec::new();
    let mut i: usize = 0;
    while i < p.len()
        invariant
            i <= p.len(),
            out.len() == i,
            forall|j: int| 0 <= j < i ==> out@[j] == normalized_path(p@)[j],
        decreases p.len() - i,
    {
        if p[i] == '\\' {
            out.push('/');
        } else {
            out.push(p[i]);
        }
        i += 1;
    }
    assert(out@ =~= normalized_path(p@));
    text_of_chars(&out)
}

/// Decides whether a path can be staged.
pub fn stageable_path(path: &str) -> (r: bool)
    ensures
        r == is_stageable_path(path@),
{
    let p = chars_of(path);
    if p.len() == 0 || p[0] == '/' {
        return false;
    }
    let m = chars_of(".my-dvcs");
    if p.len() >= m.len() {
        let mut j: usize = 0;
        let mut same = true;
        assert(p@.subrange(0, 0) =~= m@.subrange(0, 0));
        while j < m.len()
            invariant
                j <= m.len() <= p.len(),
                same == (p@.subrange(0, j as int) == m@.subrange(0, j as int)),
            decreases m.len() - j,
        {
            let ghost before = same;
            if p[j] != m[j] {
                same = false;
            }
            proof {
                let a = p@.subrange(0, j + 1);
                let b = m@.subrange(0, j + 1);
                assert(a.drop_last() =~= p@.subrange(0, j as int));
                assert(b.drop_last() =~= m@.subrange(0, j as int));
                assert(a.last() == p@[j as int] && b.last() == m@[j as int]);
                if before && p@[j as int] == m@[j as int] {
                    assert(a =~= b);
                }
            }
            j += 1;
        }
        assert(m@.subrange(0, m.len() as int) =~= m@);
        if same && (p.len() == m.len() || p[m.len()] == '/') {
            return false;
        }
    }
    let mut i: usize = 0;
    while i < p.len()
        invariant
            i <= p.len(),
            p@ == path@,
            forall|k: int| 0 <= k < i ==> !is_dot_dot_at(p@, k),
            forall|k: int| 0 <= k < i ==> p@[k] != '\n' && p@[k] != '\r',
        decreases p.len() - i,
    {
        if p[i] == '\n' || p[i] == '\r' {
            assert(p@.contains(p@[i as int]));
            return false;
        }
        if p[i] == '.' && i + 1 < p.len() && p[i + 1] == '.' && (i == 0 || p[i - 1] == '/') && (i
            + 2 == p.len() || p[i + 2] == '/') {
            assert(is_dot_dot_at(p@, i as int));
            return false;
        }
        i += 1;
    }
    true
}

/// Stages a file of the working directory. `exists` and `is_dir` are what
/// the file system says of the path. A path where nothing exists is an I/O
/// failure; a directory, and a path that cannot be staged, is an invalid
/// path. Says whether the path was added or was staged already.
pub fn stage_add(staging: &mut StagingArea, file_path: &str, exists: bool, is_dir: bool) -> (r:
    Result<bool, DvcsError>)
    requires
        old(staging).wf(),
    ensures
        final(staging).wf(),
        r matches Ok(added) ==> stage_add_result(old(staging)@, file_path@, exists, is_dir) == Ok::<
            Seq<Seq<char>>,
            ErrorView,
        >(final(staging)@) && added == !old(staging)@.contains(file_path@),
        r matches Err(e) ==> stage_add_result(old(staging)@, file_path@, exists, is_dir) == Err::<
            Seq<Seq<char>>,
            ErrorView,
        >(e@) && final(staging)@ == old(staging)@,
{
    if !exists {
        return Err(not_found(file_path.to_owned()));
    }
    if is_dir || !stageable_path(file_path) {
        return Err(DvcsError::InvalidPath);
    }
    Ok(staging.add(file_path))
}

/// Unstages a path. Says whether it was staged.
pub fn stage_remove(staging: &mut StagingArea, file_path: &str) -> (removed: bool)
    requires
        old(staging).wf(),
    ensures
        final(staging).wf(),
        removed == old(staging)@.contains(file_path@),
        final(staging)@ == without_path(old(staging)@, file_path@),
{
    staging.remove(file_path)
}

/// The staged paths, in the order in which they were staged.
pub fn get_staged_files(staging: &StagingArea) -> (r: Vec<String>)
    ensures
        staged_texts(r@) == staging@,
{
    staging.list()
}

/// Unstages everything.
pub fn clear_staged_files(staging: &mut StagingArea)
    ensures
        final(staging).wf(),
        final(staging)@ == Seq::<Seq<char>>::empty(),
{
    staging.clear();
}

/// The paths and kinds of the entries of a walk.
pub open spec fn walk_views(v: Seq<(String, bool)>) -> Seq<(Seq<char>, bool)> {
    Seq::new(v.len(), |i: int| (v[i].0@, v[i].1))
}

/// Stages every file that a walk through the working directory found.
/// `entries` gives the relative path of each entry and whether it is a
/// file. What cannot be staged, the metadata directory above all, is passed
/// over.
pub fn stage_all_files(staging: &mut StagingArea, entries: &Vec<(String, bool)>)
    requires
        old(staging).wf(),
    ensures
        final(staging).wf(),
        final(staging)@ == stage_all_spec(old(staging)@, walk_views(entries@)),
{
    let ghost all = walk_views(entries@);
    let ghost start = staging@;
    let mut i: usize = 0;
    assert(all.take(0) =~= Seq::<(Seq<char>, bool)>::empty());
    while i < entries.len()
        invariant
            i <= entries.len(),
            all == walk_views(entries@),
            staging.wf(),
            staging@ == stage_all_spec(start, all.take(i as int)),
        decreases entries.len() - i,
    {
        let ghost prefix = all.take(i + 1);
        assert(prefix.drop_last() =~= all.take(i as int));
        assert(prefix.last() == (entries@[i as int].0@, entries@[i as int].1));
        if entries[i].1 {
            let _ = stage_add(staging, entries[i].0.as_str(), true, false);
        }
        i += 1;
    }
    assert(all.take(i as int) =~= all);
}

} // verus!
