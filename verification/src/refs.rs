//! Branches and HEAD: what HEAD names, where a new branch starts, and the
//! branches a repository lists.
use vstd::prelude::*;
use crate::diff3::lines_view;
use crate::protocol::refs_view;
use crate::text::{
    chars_of, chars_start_with, lemma_trim_end_after, push_str, starts_with, str_starts_with, trim,
    trim_end, trim_range, trim_start, trim_string,
};

verus! {

/// The branch that HEAD text names: the rest after `ref: refs/heads/`,
/// trimmed; none where HEAD does not name a branch.
pub open spec fn current_branch_of(head: Seq<char>) -> Option<Seq<char>> {
    if starts_with(head, "ref: refs/heads/"@) {
        Some(trim(head.subrange("ref: refs/heads/"@.len() as int, head.len() as int)))
    } else {
        None
    }
}

/// The text after a prefix, trimmed.
fn trimmed_after(s: &str, p: &str) -> (res: String)
    requires
        starts_with(s@, p@),
    ensures
        res@ == trim(s@.subrange(p@.len() as int, s@.len() as int)),
{
    let cs = chars_of(s);
    let n = chars_of(p).len();
    trim_range(cs.as_slice(), n, cs.len())
}

/// The branch that HEAD text names.
pub fn get_current_branch(head: &str) -> (res: Option<String>)
    ensures
        match res {
            Some(b) => current_branch_of(head@) == Some(b@),
            None => current_branch_of(head@) is None,
        },
{
    if str_starts_with(head, "ref: refs/heads/") {
        Some(trimmed_after(head, "ref: refs/heads/"))
    } else {
        None
    }
}

/// The ref that HEAD text points to (`ref: ` and a path, trimmed); none
/// where HEAD holds a commit itself.
pub open spec fn head_ref_of(head: Seq<char>) -> Option<Seq<char>> {
    if starts_with(head, "ref: "@) {
        Some(trim(head.subrange("ref: "@.len() as int, head.len() as int)))
    } else {
        None
    }
}

/// The path, within the repository directory, of the ref that HEAD points
/// to; none where HEAD holds a commit itself.
pub fn head_ref_path(head: &str) -> (res: Option<String>)
    ensures
        match res {
            Some(p) => head_ref_of(head@) == Some(p@),
            None => head_ref_of(head@) is None,
        },
{
    if str_starts_with(head, "ref: ") {
        Some(trimmed_after(head, "ref: "))
    } else {
        None
    }
}

/// The commit that HEAD resolves to: the trimmed text of the ref it points
/// to (where that could be read), or the trimmed text of HEAD itself.
pub open spec fn head_commit_of(head: Seq<char>, ref_text: Option<Seq<char>>) -> Option<Seq<char>> {
    if starts_with(head, "ref: "@) {
        match ref_text {
            Some(t) => Some(trim(t)),
            None => None,
        }
    } else {
        Some(trim(head))
    }
}

/// The commit that HEAD text resolves to, given the text of the ref it
/// points to (where that could be read).
pub fn get_head_commit(head: &str, ref_text: &Option<String>) -> (res: Option<String>)
    ensures
        match res {
            Some(c) => head_commit_of(
                head@,
                match ref_text {
                    Some(t) => Some(t@),
                    None => None,
                },
            ) == Some(c@),
            None => head_commit_of(
                head@,
                match ref_text {
                    Some(t) => Some(t@),
                    None => None,
                },
            ) is None,
        },
{
    if str_starts_with(head, "ref: ") {
        match ref_text {
            Some(t) => Some(trim_string(t.as_str())),
            None => None,
        }
    } else {
        Some(trim_string(head))
    }
}

/// The commit a new branch starts at: the one HEAD resolves to, or forty
/// zeros where it resolves to none.
pub fn create_branch(head_commit: &Option<String>) -> (res: String)
    ensures
        match head_commit {
            Some(c) => res@ == c@,
            None => res@ == "0000000000000000000000000000000000000000"@,
        },
{
    match head_commit {
        Some(c) => c.clone(),
        None => "0000000000000000000000000000000000000000".to_string(),
    }
}

/// The HEAD text that points to `branch`.
pub open spec fn head_text_for(branch: Seq<char>) -> Seq<char> {
    "ref: refs/heads/"@ + branch
}

/// The HEAD text that switching to `branch` writes.
pub fn switch_branch(branch: &str) -> (res: String)
    ensures
        res@ == head_text_for(branch@),
{
    let mut h = "ref: refs/heads/".to_string();
    push_str(&mut h, branch);
    h
}

/// Where a new commit goes: the ref file of the current branch (a path
/// within the repository directory), or HEAD itself where HEAD names no
/// branch.
pub open spec fn head_update_path_of(head: Option<Seq<char>>) -> Seq<char> {
    match head {
        Some(h) => match current_branch_of(h) {
            Some(b) => "refs/heads/"@ + b,
            None => "HEAD"@,
        },
        None => "HEAD"@,
    }
}

/// The file, within the repository directory, that moving the current
/// branch to a new commit writes, given HEAD's text (where it could be read).
pub fn update_head(head: &Option<String>) -> (res: String)
    ensures
        res@ == head_update_path_of(
            match head {
                Some(h) => Some(h@),
                None => None,
            },
        ),
{
    match head {
        Some(h) => match get_current_branch(h.as_str()) {
            Some(b) => {
                let mut p = "refs/heads/".to_string();
                push_str(&mut p, b.as_str());
                p
            },
            None => "HEAD".to_string(),
        },
        None => "HEAD".to_string(),
    }
}

/// The branches that ref files (name, text) list: each name with its text
/// trimmed, where that is not empty, in order.
pub open spec fn refs_of_files(files: Seq<(Seq<char>, Seq<char>)>) -> Seq<(Seq<char>, Seq<char>)>
    decreases files.len(),
{
    if files.len() == 0 {
        Seq::empty()
    } else {
        let rest = refs_of_files(files.drop_last());
        let t = trim(files.last().1);
        if t.len() > 0 {
            rest.push((files.last().0, t))
        } else {
            rest
        }
    }
}

/// The branches that ref files (name, text) list, each with its head.
pub fn get_refs(files: &Vec<(String, String)>) -> (res: Vec<(String, String)>)
    ensures
        refs_view(res@) == refs_of_files(refs_view(files@)),
{
    let ghost fv = refs_view(files@);
    let mut out: Vec<(String, String)> = Vec::new();
    let mut i: usize = 0;
    assert(refs_view(out@) =~= refs_of_files(fv.take(0)));
    while i < files.len()
        invariant
            i <= files.len(),
            fv == refs_view(files@),
            refs_view(out@) == refs_of_files(fv.take(i as int)),
        decreases files.len() - i,
    {
        let ghost t = fv.take(i + 1);
        assert(t.drop_last() =~= fv.take(i as int));
        let h = trim_string(files[i].1.as_str());
        if h.as_str().unicode_len() > 0 {
            let ghost before = refs_view(out@);
            let name = files[i].0.clone();
            let ghost item = (name@, h@);
            out.push((name, h));
            assert(refs_view(out@) =~= before.push(item));
        }
        i = i + 1;
    }
    assert(fv.take(files.len() as int) =~= fv);
    out
}

/// A branch that HEAD is switched to is the current branch, where its name
/// has no white space at either end.
pub proof fn law_switch_then_current(branch: Seq<char>)
    requires
        trim(branch) == branch,
    ensures
        current_branch_of(head_text_for(branch)) == Some(branch),
        head_update_path_of(Some(head_text_for(branch))) == "refs/heads/"@ + branch,
{
    let h = head_text_for(branch);
    let p = "ref: refs/heads/"@;
    assert(h.subrange(0, p.len() as int) =~= p);
    assert(h.subrange(p.len() as int, h.len() as int) =~= branch);
}


/// The text of the file at `path` among repository files, where there is one.
pub open spec fn file_text(files: Map<Seq<char>, Seq<char>>, path: Seq<char>) -> Option<Seq<char>> {
    if files.contains_key(path) {
        Some(files[path])
    } else {
        None
    }
}

/// The commit that HEAD resolves to among repository files.
pub open spec fn head_commit_in(files: Map<Seq<char>, Seq<char>>) -> Option<Seq<char>> {
    match file_text(files, "HEAD"@) {
        None => None,
        Some(head) => head_commit_of(
            head,
            match head_ref_of(head) {
                Some(r) => file_text(files, r),
                None => None,
            },
        ),
    }
}

/// Moving the current branch to a commit and then resolving HEAD gives that
/// commit, where the commit text has no white space at either end and does
/// not begin with `ref: `, and a branch that HEAD names does not begin with
/// white space.
pub proof fn law_update_then_head(files: Map<Seq<char>, Seq<char>>, hash: Seq<char>)
    requires
        trim(hash) == hash,
        !starts_with(hash, "ref: "@),
        files.contains_key("HEAD"@) && starts_with(files["HEAD"@], "ref: refs/heads/"@) ==> trim_start(
            files["HEAD"@].subrange("ref: refs/heads/"@.len() as int, files["HEAD"@].len() as int),
        ) == files["HEAD"@].subrange("ref: refs/heads/"@.len() as int, files["HEAD"@].len() as int),
    ensures
        head_commit_in(files.insert(head_update_path_of(file_text(files, "HEAD"@)), hash)) == Some(hash),
{
    reveal_strlit("ref: refs/heads/");
    reveal_strlit("ref: ");
    reveal_strlit("refs/heads/");
    reveal_strlit("HEAD");
    let p = head_update_path_of(file_text(files, "HEAD"@));
    let f2 = files.insert(p, hash);
    let pre = "ref: refs/heads/"@;
    if files.contains_key("HEAD"@) && starts_with(files["HEAD"@], pre) {
        let head = files["HEAD"@];
        let x = head.subrange(pre.len() as int, head.len() as int);
        let b = trim(x);
        assert(p == "refs/heads/"@ + b);
        assert(p[0] == 'r');
        assert(p != "HEAD"@);
        assert(f2["HEAD"@] == head);
        assert(starts_with(head, "ref: "@)) by {
            assert(head.subrange(0, pre.len() as int) == pre);
            assert forall|q: int| 0 <= q < 5 implies head.subrange(0, 5)[q] == "ref: "@[q] by {
                assert(head.subrange(0, pre.len() as int)[q] == pre[q]);
            }
            assert(head.subrange(0, 5) =~= "ref: "@);
        }
        let tail = head.subrange(5, head.len() as int);
        assert(tail =~= "refs/heads/"@ + x) by {
            assert(head.subrange(0, pre.len() as int) == pre);
            assert forall|q: int| 0 <= q < tail.len() implies tail[q] == ("refs/heads/"@ + x)[q] by {
                if q < 11 {
                    assert(tail[q] == head[q + 5]);
                    assert(head.subrange(0, pre.len() as int)[q + 5] == pre[q + 5]);
                }
            }
        }
        assert(trim_start(tail) == tail) by {
            assert(tail[0] == 'r');
        }
        lemma_trim_end_after("refs/heads/"@, x);
        assert(head_ref_of(head) == Some(p));
        assert(f2.contains_key(p) && f2[p] == hash);
    } else {
        assert(p == "HEAD"@);
        assert(f2["HEAD"@] == hash);
        assert(head_ref_of(hash) is None);
    }
}

} // verus!
