//! Taking up objects, branches and the head from the text of their files.

use crate::error::{DvcsError, ErrorView};
use crate::hash::{canonical_hash_text, is_hash_literal};
use crate::repository::{
    branch_rel_path, is_branch_name, join_path, put_pairs, store_put, RepoView,
    RepositoryInterface,
};
use crate::table::has_key;
use crate::text::{chars_of, text_of_chars};
use vstd::prelude::*;
use vstd::string::*;

verus! {

/// A blank, a tab, a line feed or a carriage return.
pub open spec fn is_blank(c: char) -> bool {
    c == ' ' || c == '\t' || c == '\n' || c == '\r'
}

/// The text without the blanks at its end.
pub open spec fn trim_end(s: Seq<char>) -> Seq<char>
    decreases s.len(),
{
    if s.len() > 0 && is_blank(s.last()) {
        trim_end(s.drop_last())
    } else {
        s
    }
}

/// The text without the blanks at its start.
pub open spec fn trim_start(s: Seq<char>) -> Seq<char>
    decreases s.len(),
{
    if s.len() > 0 && is_blank(s[0]) {
        trim_start(s.drop_first())
    } else {
        s
    }
}

/// The text without the blanks at both ends.
pub open spec fn trimmed(s: Seq<char>) -> Seq<char> {
    trim_start(trim_end(s))
}

fn blank(c: char) -> (r: bool)
    ensures
        r == is_blank(c),
{
    c == ' ' || c == '\t' || c == '\n' || c == '\r'
}

/// The text without the blanks at both ends.
pub fn trim_text(text: &str) -> (r: String)
    ensures
        r@ == trimmed(text@),
{
    let v = chars_of(text);
    let mut end: usize = v.len();
    assert(v@.take(end as int) =~= v@);
    while end > 0 && blank(v[end - 1])
        invariant
            end <= v.len(),
            trim_end(v@) == trim_end(v@.take(end as int)),
        decreases end,
    {
        assert(v@.take(end as int).drop_last() =~= v@.take(end - 1));
        end -= 1;
    }
    let ghost kept = v@.take(end as int);
    assert(trim_end(v@) == kept);
    let mut start: usize = 0;
    assert(kept.skip(0) =~= kept);
    while start < end && blank(v[start])
        invariant
            start <= end <= v.len(),
            kept == v@.take(end as int),
            trim_start(kept) == trim_start(kept.skip(start as int)),
        decreases end - start,
    {
        assert(kept.skip(start as int).drop_first() =~= kept.skip(start + 1));
        assert(kept.skip(start as int)[0] == v@[start as int]);
        start += 1;
    }
    proof {
        if start < end {
            assert(kept.skip(start as int)[0] == v@[start as int]);
        }
        assert(trim_start(kept) == kept.skip(start as int));
    }
    let mut out: Vec<char> = Vec::new();
    let mut i: usize = start;
    while i < end
        invariant
            start <= i <= end <= v.len(),
            kept == v@.take(end as int),
            out@ == kept.subrange(start as int, i as int),
        decreases end - i,
    {
        out.push(v[i]);
        assert(out@ =~= kept.subrange(start as int, i + 1));
        i += 1;
    }
    assert(out@ =~= kept.skip(start as int));
    text_of_chars(&out)
}

/// The cause that is given for a branch file that holds no hash.
pub open spec fn not_a_hash_cause() -> Seq<char> {
    "not a commit hash"@
}

/// What taking up a branch from its file answers with: the branches after
/// it, or why the file is refused. The text of the file is the hash, with
/// or without blanks around it.
pub open spec fn load_branch_spec(repo: RepoView, name: Seq<char>, file_text: Seq<char>) -> Result<
    RepoView,
    ErrorView,
> {
    if !is_hash_literal(trimmed(file_text)) {
        Err(
            ErrorView::IOFailure {
                path: join_path(repo.path, branch_rel_path(name)),
                cause: not_a_hash_cause(),
            },
        )
    } else if !is_branch_name(name) {
        Err(ErrorView::InvalidPath)
    } else if has_key(repo.branches, name) {
        Err(ErrorView::BranchExists { name: name })
    } else {
        Ok(
            RepoView {
                branches: repo.branches.push((name, canonical_hash_text(trimmed(file_text)))),
                ..repo
            },
        )
    }
}

impl RepositoryInterface {
    /// Takes up an object from its file: `file_prefix` is the name of the
    /// directory that holds the file and `file_stem` the name of the file
    /// without its extension. A file whose names do not make a hash is
    /// passed over. Says whether the file was taken for an object.
    pub fn load_object(&mut self, file_prefix: &str, file_stem: &str, data: &[u8]) -> (taken: bool)
        requires
            old(self).wf(),
        ensures
            final(self).wf(),
            taken == is_hash_literal(file_prefix@ + file_stem@),
            final(self)@ == (if taken {
                RepoView {
                    objects: store_put(
                        old(self)@.objects,
                        canonical_hash_text(file_prefix@ + file_stem@),
                        data@,
                    ),
                    ..old(self)@
                }
            } else {
                old(self)@
            }),
            final(self).object_pairs() == (if taken {
                put_pairs(
                    old(self).object_pairs(),
                    canonical_hash_text(file_prefix@ + file_stem@),
                    data@,
                )
            } else {
                old(self).object_pairs()
            }),
    {
        let mut name = file_prefix.to_owned();
        name.append(file_stem);
        match crate::hash::Hash::parse(name.as_str()) {
            Some(hash) => {
                self.add_object(hash, data);
                true
            },
            None => false,
        }
    }

    /// Takes up a branch from its file.
    pub fn load_branch(&mut self, name: &str, file_text: &str) -> (r: Result<(), DvcsError>)
        requires
            old(self).wf(),
        ensures
            final(self).wf(),
            final(self).object_pairs() == old(self).object_pairs(),
            r is Ok ==> load_branch_spec(old(self)@, name@, file_text@) == Ok::<
                RepoView,
                ErrorView,
            >(final(self)@),
            r matches Err(e) ==> load_branch_spec(old(self)@, name@, file_text@) == Err::<
                RepoView,
                ErrorView,
            >(e@) && final(self)@ == old(self)@,
    {
        let text = trim_text(file_text);
        match crate::hash::Hash::parse(text.as_str()) {
            Some(hash) => self.create_branch(name, hash),
            None => Err(
                DvcsError::IOFailure {
                    path: self.get_branch_path(name),
                    cause: "not a commit hash".to_owned(),
                },
            ),
        }
    }

    /// Takes up the head from its file: the name of the current branch, with
    /// or without blanks around it, or nothing.
    pub fn load_head(&mut self, file_text: &str) -> (r: Result<(), DvcsError>)
        requires
            old(self).wf(),
        ensures
            final(self).wf(),
            final(self).object_pairs() == old(self).object_pairs(),
            r is Ok <==> trimmed(file_text@).len() == 0 || has_key(
                old(self)@.branches,
                trimmed(file_text@),
            ),
            r is Ok ==> final(self)@ == (RepoView { head: trimmed(file_text@), ..old(self)@ }),
            r matches Err(e) ==> final(self)@ == old(self)@ && e@ == (ErrorView::BranchMissing {
                name: trimmed(file_text@),
            }),
    {
        let name = trim_text(file_text);
        self.update_current_head(name.as_str())
    }
}

} // verus!
