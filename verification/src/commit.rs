//! Committing the staged files: the checks before a commit, the tree, and the
//! commit object (with a second parent while a merge is in progress).
use vstd::prelude::*;
use vstd::utf8::*;
use crate::diff3::{diff3_of, law_conflict_marked, lemma_diff3_plain, lines_view, no_newlines};
use crate::error::GitError;
use crate::hexcode::hex_encoded;
use crate::index::triples_view;
use crate::merge::{file_step, opt_blob_lines, StepView};
use crate::store::stored_text;
use crate::protocol::refs_view;
use crate::state::{find_key, keys_distinct, pairs_map};
use crate::objects::{built_object, commit_text, GitObject, GitObjectView, Kind};
use crate::text::{
    join_with, lemma_join_keeps_line, lemma_text_lines_plain, lines_of, push_bytes, push_str,
    starts_with, str_starts_with, text_lines, trim, trim_string,
};
use crate::tree::{objects_of, staged_tree, staged_view, trees_of, write_tree, StageFault};

verus! {

/// The commit that MERGE_HEAD names while a merge is in progress: its text
/// trimmed, where that is 40 bytes long.
pub open spec fn merge_head_spec(text: Option<Seq<char>>) -> Option<Seq<char>> {
    match text {
        Some(t) => if encode_utf8(trim(t)).len() == 40 {
            Some(trim(t))
        } else {
            None
        },
        None => None,
    }
}

/// The commit that the text of MERGE_HEAD (where it could be read) names
/// while a merge is in progress.
pub fn merge_head_of(text: &Option<String>) -> (res: Option<String>)
    ensures
        res matches Some(h) ==> merge_head_spec(
            match text {
                Some(t) => Some(t@),
                None => None,
            },
        ) == Some(h@),
        res is None ==> merge_head_spec(
            match text {
                Some(t) => Some(t@),
                None => None,
            },
        ) is None,
{
    match text {
        Some(t) => {
            let trimmed = trim_string(t.as_str());
            if trimmed.as_str().as_bytes().len() == 40 {
                Some(trimmed)
            } else {
                None
            }
        },
        None => None,
    }
}

/// Whether a line is a conflict marker line of a merge.
pub open spec fn is_marker_line(l: Seq<char>) -> bool {
    starts_with(l, "<<<<<<< LOCAL"@) || starts_with(l, "======="@) || starts_with(l, ">>>>>>> REMOTE"@)
}

/// Whether text still holds a conflict marker line.
pub open spec fn has_conflict_markers(text: Seq<char>) -> bool {
    exists|i: int| 0 <= i < text_lines(text).len() && is_marker_line(#[trigger] text_lines(text)[i])
}

/// Whether the text of a file still holds a conflict marker line.
pub fn conflict_markers_in(text: &str) -> (res: bool)
    ensures
        res == has_conflict_markers(text@),
{
    let lines = lines_of(text);
    let ghost lv = lines_view(lines@);
    let mut i: usize = 0;
    while i < lines.len()
        invariant
            i <= lines.len(),
            lv == lines_view(lines@),
            lv == text_lines(text@),
            forall|q: int| 0 <= q < i ==> !is_marker_line(#[trigger] lv[q]),
        decreases lines.len() - i,
    {
        let l = lines[i].as_str();
        if str_starts_with(l, "<<<<<<< LOCAL") || str_starts_with(l, "=======") || str_starts_with(
            l,
            ">>>>>>> REMOTE",
        ) {
            assert(is_marker_line(lv[i as int]));
            return true;
        }
        i = i + 1;
    }
    false
}

/// The paths among staged files whose texts still hold conflict markers.
pub open spec fn unresolved_of(
    staged: Seq<(Seq<char>, Seq<char>, Seq<char>)>,
    texts: Seq<Seq<char>>,
) -> Seq<Seq<char>>
    decreases staged.len(),
{
    if staged.len() == 0 || texts.len() < staged.len() {
        Seq::empty()
    } else {
        let rest = unresolved_of(staged.drop_last(), texts.take(staged.len() - 1));
        if has_conflict_markers(texts[staged.len() - 1]) {
            rest.push(staged.last().2)
        } else {
            rest
        }
    }
}

/// The staged paths whose texts (`texts[i]` that of the `i`th staged file)
/// still hold conflict markers, in order.
pub fn unresolved_files(staged: &Vec<(String, String, String)>, texts: &Vec<String>) -> (res: Vec<String>)
    requires
        texts.len() == staged.len(),
    ensures
        lines_view(res@) == unresolved_of(staged_view(staged@), lines_view(texts@)),
{
    let ghost sv = staged_view(staged@);
    let ghost tv = lines_view(texts@);
    let mut out: Vec<String> = Vec::new();
    let mut i: usize = 0;
    assert(lines_view(out@) =~= unresolved_of(sv.take(0), tv.take(0)));
    while i < staged.len()
        invariant
            i <= staged.len(),
            texts.len() == staged.len(),
            sv == staged_view(staged@),
            tv == lines_view(texts@),
            lines_view(out@) == unresolved_of(sv.take(i as int), tv.take(i as int)),
        decreases staged.len() - i,
    {
        let ghost s1 = sv.take(i + 1);
        let ghost t1 = tv.take(i + 1);
        assert(s1.drop_last() =~= sv.take(i as int));
        assert(t1.take(i as int) =~= tv.take(i as int));
        assert(t1[i as int] == texts@[i as int]@);
        if conflict_markers_in(texts[i].as_str()) {
            let ghost before = lines_view(out@);
            out.push(staged[i].2.clone());
            assert(lines_view(out@) =~= before.push(s1.last().2));
        }
        i = i + 1;
    }
    assert(sv.take(staged.len() as int) =~= sv);
    assert(tv.take(staged.len() as int) =~= tv);
    out
}

/// The author and committer of a merge commit.
pub open spec fn merge_committer() -> Seq<char> {
    "Code Crafters <000000000+codecrafters@users.noreply.github.com> 1750973235 +0000"@
}

/// The text of a merge commit: the tree, the local head (where there is one)
/// and the merged head as parents, author, committer and message.
pub open spec fn merge_commit_text(
    tree: Seq<char>,
    parent: Option<Seq<char>>,
    merged: Seq<char>,
    msg: Seq<char>,
) -> Seq<char> {
    "tree "@ + tree + "\n"@ + match parent {
        Some(p) => "parent "@ + p + "\n"@,
        None => Seq::empty(),
    } + "parent "@ + merged + "\n"@ + "author "@ + merge_committer() + "\n"@ + "committer "@
        + merge_committer() + "\n"@ + "\n"@ + msg + "\n"@
}

/// The text of a merge commit.
pub fn merge_commit_contents(tree: &str, parent: Option<&str>, merged: &str, msg: &str) -> (res: String)
    ensures
        res@ == merge_commit_text(
            tree@,
            match parent {
                Some(p) => Some(p@),
                None => None,
            },
            merged@,
            msg@,
        ),
{
    let committer = "Code Crafters <000000000+codecrafters@users.noreply.github.com> 1750973235 +0000";
    let mut c = "tree ".to_string();
    push_str(&mut c, tree);
    push_str(&mut c, "\n");
    let ghost after_tree = c@;
    match parent {
        Some(p) => {
            push_str(&mut c, "parent ");
            push_str(&mut c, p);
            push_str(&mut c, "\n");
        },
        None => {},
    }
    let ghost after_parent = c@;
    push_str(&mut c, "parent ");
    push_str(&mut c, merged);
    push_str(&mut c, "\n");
    push_str(&mut c, "author ");
    push_str(&mut c, committer);
    push_str(&mut c, "\n");
    push_str(&mut c, "committer ");
    push_str(&mut c, committer);
    push_str(&mut c, "\n");
    push_str(&mut c, "\n");
    push_str(&mut c, msg);
    push_str(&mut c, "\n");
    proof {
        let pp = match parent {
            Some(p) => "parent "@ + p@ + "\n"@,
            None => Seq::<char>::empty(),
        };
        assert(after_parent =~= "tree "@ + tree@ + "\n"@ + pp);
    }
    c
}

/// What a commit makes: the hex hash of its tree, the trees to store, and
/// the commit object.
pub struct CommitResult {
    pub tree_hash: String,
    pub trees: Vec<GitObject>,
    pub commit: GitObject,
}

/// The text of the commit made of `tree`: a merge commit while a merge of
/// `merged` is in progress, else a commit with the local head as parent.
pub open spec fn commit_text_of(
    tree: Seq<char>,
    parent: Option<Seq<char>>,
    merged: Option<Seq<char>>,
    msg: Seq<char>,
) -> Seq<char> {
    match merged {
        None => commit_text(tree, parent, Seq::empty(), msg),
        Some(m) => merge_commit_text(tree, parent, m, msg),
    }
}

/// Commits the staged (mode, blob hash, path) files with `message`, on the
/// local head `parent` (where there is one). While a merge of `merge_head`
/// is in progress, `texts` are the texts of the staged files, and a commit
/// is refused while any still holds conflict markers; the commit then has
/// the merged head as its second parent.
pub fn commit(
    message: &String,
    merge_head: &Option<String>,
    staged: &Vec<(String, String, String)>,
    texts: &Vec<String>,
    parent: &Option<String>,
) -> (res: Result<CommitResult, GitError>)
    requires
        staged@.len() < usize::MAX,
        merge_head is Some ==> texts.len() == staged.len(),
    ensures
        staged@.len() == 0 ==> res matches Err(GitError::NothingToCommit),
        staged@.len() > 0 && merge_head is Some && unresolved_of(staged_view(staged@), lines_view(texts@)).len()
            > 0 ==> res matches Err(GitError::UnresolvedConflicts),
        staged@.len() > 0 && (merge_head is None || unresolved_of(staged_view(staged@), lines_view(texts@)).len()
            == 0) ==> match staged_tree(staged_view(staged@)) {
            Err(StageFault::BadHash(h)) => res matches Err(GitError::InvalidHash(t)) && t@ == h,
            Err(StageFault::BadPath(p)) => res matches Err(GitError::InvalidPath(t)) && t@ == p,
            Ok(built) => res matches Ok(r) && built matches Some((h, cs)) && r.tree_hash@ == hex_encoded(h)
                && objects_of(r.trees@) == trees_of(cs) && r.commit@ == built_object(
                Kind::Commit,
                encode_utf8(
                    commit_text_of(
                        hex_encoded(h),
                        match parent {
                            Some(p) => Some(p@),
                            None => None,
                        },
                        match merge_head {
                            Some(m) => Some(m@),
                            None => None,
                        },
                        message@,
                    ),
                ),
            ),
        },
{
    if staged.len() == 0 {
        return Err(GitError::NothingToCommit);
    }
    match merge_head {
        Some(_) => {
            let unresolved = unresolved_files(staged, texts);
            if unresolved.len() > 0 {
                return Err(GitError::UnresolvedConflicts);
            }
        },
        None => {},
    }
    let (tree_hash, trees) = match write_tree(staged) {
        Ok(t) => t,
        Err(e) => {
            return Err(e);
        },
    };
    let parent_str: Option<&str> = match parent {
        Some(p) => Some(p.as_str()),
        None => None,
    };
    let commit = match merge_head {
        None => match GitObject::build_commit(message.as_str(), tree_hash.as_str(), parent_str) {
            Ok(o) => o,
            Err(e) => {
                return Err(e);
            },
        },
        Some(mh) => {
            let text = merge_commit_contents(tree_hash.as_str(), parent_str, mh.as_str(), message.as_str());
            let bytes = text.as_str().as_bytes();
            let mut contents: Vec<u8> = Vec::new();
            push_bytes(&mut contents, bytes, 0, bytes.len());
            assert(contents@ =~= encode_utf8(text@));
            match GitObject::build(Kind::Commit, contents) {
                Ok(o) => o,
                Err(e) => {
                    return Err(e);
                },
            }
        },
    };
    Ok(CommitResult { tree_hash, trees, commit })
}

/// The positional arguments and the (flag, value) options of command-line
/// arguments: an argument that starts with `-` takes the next one as its
/// value (a last flag without a value is dropped); the others are
/// positional.
pub open spec fn split_args(args: Seq<Seq<char>>) -> (Seq<Seq<char>>, Seq<(Seq<char>, Seq<char>)>)
    decreases args.len(),
{
    if args.len() == 0 {
        (Seq::empty(), Seq::empty())
    } else if starts_with(args[0], "-"@) {
        if args.len() >= 2 {
            let (p, o) = split_args(args.skip(2));
            (p, seq![(args[0], args[1])] + o)
        } else {
            (Seq::empty(), Seq::empty())
        }
    } else {
        let (p, o) = split_args(args.drop_first());
        (seq![args[0]] + p, o)
    }
}

/// The value of `flag` among options, the last one given counting.
pub open spec fn option_value(o: Seq<(Seq<char>, Seq<char>)>, flag: Seq<char>) -> Option<Seq<char>> {
    if pairs_map(o).contains_key(flag) {
        Some(pairs_map(o)[flag])
    } else {
        None
    }
}

/// What `commit-tree` with these arguments makes: a commit of the last
/// positional argument (a tree hash of 40 bytes) with the message of `-m`
/// and the parent of `-p`, where one is given.
pub open spec fn commit_tree_of(args: Seq<Seq<char>>) -> Result<GitObjectView, GitError> {
    let (p, o) = split_args(args);
    match option_value(o, "-m"@) {
        None => Err(GitError::MissingMessage),
        Some(msg) => if p.len() == 0 {
            Err(GitError::MissingTreeHash)
        } else if encode_utf8(p.last()).len() != 40 {
            Err(GitError::InvalidTreeHash)
        } else {
            Ok(built_object(Kind::Commit, encode_utf8(commit_text(p.last(), option_value(o, "-p"@), Seq::empty(), msg))))
        },
    }
}

/// The value of the last option `flag` among (flag, value) pairs.
fn lookup_option(o: &Vec<(String, String)>, flag: &str) -> (res: Option<String>)
    ensures
        match res {
            Some(v) => option_value(refs_view(o@), flag@) == Some(v@),
            None => option_value(refs_view(o@), flag@) is None,
        },
{
    let ghost ov = refs_view(o@);
    let mut found: Option<String> = None;
    let f = flag.to_string();
    let mut i: usize = 0;
    assert(ov.take(0) =~= Seq::<(Seq<char>, Seq<char>)>::empty());
    while i < o.len()
        invariant
            i <= o.len(),
            ov == refs_view(o@),
            f@ == flag@,
            match found {
                Some(v) => option_value(ov.take(i as int), flag@) == Some(v@),
                None => option_value(ov.take(i as int), flag@) is None,
            },
        decreases o.len() - i,
    {
        let ghost t = ov.take(i + 1);
        assert(t.drop_last() =~= ov.take(i as int));
        if o[i].0 == f {
            found = Some(o[i].1.clone());
        }
        i = i + 1;
    }
    assert(ov.take(o.len() as int) =~= ov);
    found
}

/// The commit object that `commit-tree` with these arguments makes.
pub fn commit_tree(args: &Vec<String>) -> (res: Result<GitObject, GitError>)
    ensures
        match res {
            Ok(o) => commit_tree_of(lines_view(args@)) == Ok::<GitObjectView, GitError>(o@),
            Err(e) => commit_tree_of(lines_view(args@)) == Err::<GitObjectView, GitError>(e),
        },
{
    let ghost av = lines_view(args@);
    let mut positional: Vec<String> = Vec::new();
    let mut options: Vec<(String, String)> = Vec::new();
    let mut i: usize = 0;
    assert(av.skip(0) =~= av);
    assert(lines_view(positional@) + split_args(av).0 =~= split_args(av).0);
    assert(refs_view(options@) + split_args(av).1 =~= split_args(av).1);
    let mut done = false;
    while !done && i < args.len()
        invariant
            i <= args.len(),
            av == lines_view(args@),
            split_args(av).0 == lines_view(positional@) + split_args(av.skip(i as int)).0,
            split_args(av).1 == refs_view(options@) + split_args(av.skip(i as int)).1,
            done ==> split_args(av.skip(i as int)) == (Seq::<Seq<char>>::empty(), Seq::<(Seq<char>, Seq<char>)>::empty()),
        decreases args.len() - i, if done { 0int } else { 1int },
    {
        let ghost rest = av.skip(i as int);
        assert(rest[0] == av[i as int]);
        if str_starts_with(args[i].as_str(), "-") {
            if i + 1 < args.len() {
                let ghost before = refs_view(options@);
                options.push((args[i].clone(), args[i + 1].clone()));
                proof {
                    assert(rest[1] == av[i + 1]);
                    assert(rest.skip(2) =~= av.skip(i + 2));
                    assert(refs_view(options@) =~= before.push((av[i as int], av[i + 1])));
                    let (p2, o2) = split_args(av.skip(i + 2));
                    assert(before + (seq![(av[i as int], av[i + 1])] + o2) =~= refs_view(options@) + o2);
                }
                i = i + 2;
            } else {
                proof {
                    assert(split_args(rest) == (Seq::<Seq<char>>::empty(), Seq::<(Seq<char>, Seq<char>)>::empty()));
                }
                done = true;
            }
        } else {
            let ghost before = lines_view(positional@);
            positional.push(args[i].clone());
            proof {
                assert(rest.drop_first() =~= av.skip(i + 1));
                assert(lines_view(positional@) =~= before.push(av[i as int]));
                let (p2, o2) = split_args(av.skip(i + 1));
                assert(before + (seq![av[i as int]] + p2) =~= lines_view(positional@) + p2);
            }
            i = i + 1;
        }
    }
    proof {
        if !done {
            assert(av.skip(i as int) =~= Seq::<Seq<char>>::empty());
        }
        assert(lines_view(positional@) + Seq::<Seq<char>>::empty() =~= lines_view(positional@));
        assert(refs_view(options@) + Seq::<(Seq<char>, Seq<char>)>::empty() =~= refs_view(options@));
    }
    let msg = match lookup_option(&options, "-m") {
        Some(m) => m,
        None => {
            return Err(GitError::MissingMessage);
        },
    };
    if positional.len() == 0 {
        return Err(GitError::MissingTreeHash);
    }
    let tree_hash = positional[positional.len() - 1].clone();
    if tree_hash.as_str().as_bytes().len() != 40 {
        return Err(GitError::InvalidTreeHash);
    }
    let parent = lookup_option(&options, "-p");
    let parent_str: Option<&str> = match &parent {
        Some(p) => Some(p.as_str()),
        None => None,
    };
    match GitObject::build_commit(msg.as_str(), tree_hash.as_str(), parent_str) {
        Ok(o) => Ok(o),
        Err(e) => Err(e),
    }
}

} // verus!

verus! {

/// The lines of an optional blob hold no newline.
proof fn lemma_blob_lines_plain(s: Seq<(Seq<char>, Seq<u8>)>, h: Option<Seq<char>>)
    ensures
        no_newlines(opt_blob_lines(s, h)),
{
    if let Some(x) = h {
        if let Some(t) = stored_text(s, x) {
            lemma_text_lines_plain(t);
        }
    }
}

/// Where a merge leaves a file in conflict, the merged text that it writes
/// holds conflict marker lines.
pub proof fn law_conflicted_merge_marked(
    s: Seq<(Seq<char>, Seq<u8>)>,
    p: Seq<char>,
    b: Option<Seq<char>>,
    l: Option<Seq<char>>,
    r: Option<Seq<char>>,
    text: Seq<char>,
)
    requires
        file_step(s, p, b, l, r) == Some(Some(StepView::Merged(p, text, true))),
    ensures
        has_conflict_markers(text),
{
    let bl = opt_blob_lines(s, b);
    let ll = opt_blob_lines(s, l);
    let rl = opt_blob_lines(s, r);
    lemma_blob_lines_plain(s, b);
    lemma_blob_lines_plain(s, l);
    lemma_blob_lines_plain(s, r);
    let (merged, c) = diff3_of(bl, ll, rl).unwrap();
    assert(c && text == join_with(merged, "\n"@));
    lemma_diff3_plain(bl, ll, rl);
    law_conflict_marked(bl, ll, rl);
    reveal_strlit("\n");
    reveal_strlit("<<<<<<< LOCAL");
    let m = "<<<<<<< LOCAL"@;
    assert(merged.contains(m));
    let k = choose|x: int| 0 <= x < merged.len() && merged[x] == m;
    assert("\n"@ =~= seq!['\n']);
    lemma_join_keeps_line(merged, k);
    let tl = text_lines(text);
    let w = choose|x: int| 0 <= x < tl.len() && tl[x] == m;
    assert(m.subrange(0, m.len() as int) =~= m);
    assert(is_marker_line(tl[w]));
}

/// A staged file whose text holds conflict markers is among the unresolved
/// files.
pub proof fn lemma_marked_unresolved(
    staged: Seq<(Seq<char>, Seq<char>, Seq<char>)>,
    texts: Seq<Seq<char>>,
    i: int,
)
    requires
        texts.len() == staged.len(),
        0 <= i < staged.len(),
        has_conflict_markers(texts[i]),
    ensures
        unresolved_of(staged, texts).contains(staged[i].2),
    decreases staged.len(),
{
    let n = staged.len() as int;
    let rest = unresolved_of(staged.drop_last(), texts.take(n - 1));
    if i == n - 1 {
        assert(unresolved_of(staged, texts) == rest.push(staged.last().2));
        assert(rest.push(staged.last().2)[rest.len() as int] == staged[i].2);
    } else {
        assert(texts.take(n - 1)[i] == texts[i]);
        assert(staged.drop_last()[i] == staged[i]);
        lemma_marked_unresolved(staged.drop_last(), texts.take(n - 1), i);
        let x = choose|x: int| 0 <= x < rest.len() && rest[x] == staged[i].2;
        if has_conflict_markers(texts[n - 1]) {
            assert(rest.push(staged.last().2)[x] == rest[x]);
        }
    }
}

/// A file that a merge leaves in conflict keeps a commit refused while its
/// staged text is the merged text: that text holds conflict markers, and the
/// file is among the unresolved ones.
pub proof fn law_conflicted_merge_blocks_commit(
    s: Seq<(Seq<char>, Seq<u8>)>,
    p: Seq<char>,
    b: Option<Seq<char>>,
    l: Option<Seq<char>>,
    r: Option<Seq<char>>,
    staged: Seq<(Seq<char>, Seq<char>, Seq<char>)>,
    texts: Seq<Seq<char>>,
    i: int,
)
    requires
        texts.len() == staged.len(),
        0 <= i < staged.len(),
        file_step(s, p, b, l, r) == Some(Some(StepView::Merged(p, texts[i], true))),
    ensures
        unresolved_of(staged, texts).contains(staged[i].2),
        unresolved_of(staged, texts).len() > 0,
{
    law_conflicted_merge_marked(s, p, b, l, r, texts[i]);
    lemma_marked_unresolved(staged, texts, i);
}

} // verus!
