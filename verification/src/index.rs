//! The index: the staged files, one `mode hash path` line each.
use vstd::prelude::*;
use crate::diff3::lines_view;
use crate::error::GitError;
use crate::objects::{built_object, GitObject, GitObjectView, Kind};
use crate::text::{
    has_char, join_strings, join_with, lemma_lines_join_terminated, lemma_split_first,
    lemma_split_none, lemma_text_lines_plain, lines_of, push_str, splitn_on,
    splitn_str, text_lines, trim, trim_end, trim_start, trim_string,
};

verus! {

/// The entry that a line of the index holds: its first two words and the
/// rest; none for a blank line or one with fewer than three parts.
pub open spec fn entry_of_line(l: Seq<char>) -> Option<(Seq<char>, Seq<char>, Seq<char>)> {
    let parts = splitn_on(l, 3, ' ');
    if trim(l).len() == 0 || parts.len() < 3 {
        None
    } else {
        Some((parts[0], parts[1], parts[2]))
    }
}

/// The entries that index lines hold, in order.
pub open spec fn entries_of_lines(ls: Seq<Seq<char>>) -> Seq<(Seq<char>, Seq<char>, Seq<char>)>
    decreases ls.len(),
{
    if ls.len() == 0 {
        Seq::empty()
    } else {
        let rest = entries_of_lines(ls.drop_last());
        match entry_of_line(ls.last()) {
            Some(e) => rest.push(e),
            None => rest,
        }
    }
}

/// The (mode, blob hash, path) entries of index text.
pub open spec fn index_entries(content: Seq<char>) -> Seq<(Seq<char>, Seq<char>, Seq<char>)> {
    entries_of_lines(text_lines(content))
}

/// The view of (mode, hash, path) triples.
pub open spec fn triples_view(v: Seq<(String, String, String)>) -> Seq<(Seq<char>, Seq<char>, Seq<char>)> {
    v.map_values(|e: (String, String, String)| (e.0@, e.1@, e.2@))
}

/// Whether staging `path` keeps the index line `l`: a line that is not blank
/// and is not an entry for `path`.
pub open spec fn keeps_line(l: Seq<char>, path: Seq<char>) -> bool {
    trim(l).len() > 0 && (splitn_on(l, 3, ' ').len() < 3 || splitn_on(l, 3, ' ')[2] != path)
}

/// The index lines that staging `path` keeps, in order.
pub open spec fn kept_lines(ls: Seq<Seq<char>>, path: Seq<char>) -> Seq<Seq<char>>
    decreases ls.len(),
{
    if ls.len() == 0 {
        Seq::empty()
    } else {
        let rest = kept_lines(ls.drop_last(), path);
        if keeps_line(ls.last(), path) {
            rest.push(ls.last())
        } else {
            rest
        }
    }
}

/// The index line of an entry.
pub open spec fn entry_line(mode: Seq<char>, hash: Seq<char>, path: Seq<char>) -> Seq<char> {
    mode + " "@ + hash + " "@ + path
}

/// The index text once `path` is staged as `hash` with `mode`: the kept
/// lines, then the new entry, each ending in a newline.
pub open spec fn staged_index_text(existing: Seq<char>, mode: Seq<char>, hash: Seq<char>, path: Seq<char>) -> Seq<char> {
    join_with(kept_lines(text_lines(existing), path).push(entry_line(mode, hash, path)), "\n"@) + "\n"@
}

/// The staged files that index text lists, as (mode, blob hash, path).
pub fn get_staged_files(index: &str) -> (res: Vec<(String, String, String)>)
    ensures
        triples_view(res@) == index_entries(index@),
{
    let lines = lines_of(index);
    let ghost lv = lines_view(lines@);
    let mut out: Vec<(String, String, String)> = Vec::new();
    let mut i: usize = 0;
    assert(triples_view(out@) =~= entries_of_lines(lv.take(0)));
    while i < lines.len()
        invariant
            i <= lines.len(),
            lv == lines_view(lines@),
            lv == text_lines(index@),
            triples_view(out@) == entries_of_lines(lv.take(i as int)),
        decreases lines.len() - i,
    {
        let ghost t = lv.take(i + 1);
        assert(t.drop_last() =~= lv.take(i as int));
        let trimmed = trim_string(lines[i].as_str());
        assert(lines[i as int]@ == t.last());
        if trimmed.as_str().unicode_len() > 0 {
            let parts = splitn_str(lines[i].as_str(), 3, ' ');
            assert(lines_view(parts@) == splitn_on(t.last(), 3, ' '));
            if parts.len() >= 3 {
                assert(entry_of_line(t.last()) == Some((parts@[0]@, parts@[1]@, parts@[2]@)));
                let ghost before = triples_view(out@);
                let e = (parts[0].clone(), parts[1].clone(), parts[2].clone());
                let ghost ev = (e.0@, e.1@, e.2@);
                out.push(e);
                assert(triples_view(out@) =~= before.push(ev));
            }
        }
        i = i + 1;
    }
    assert(lv.take(lines.len() as int) =~= lv);
    out
}

/// The index text once `filepath` is staged as `blob_hash` with `mode`,
/// given the index text before: blank lines and the old entry for the path
/// go, and the new entry comes last.
pub fn stage_file(existing: &str, mode: &str, blob_hash: &str, filepath: &str) -> (res: String)
    ensures
        res@ == staged_index_text(existing@, mode@, blob_hash@, filepath@),
{
    let lines = lines_of(existing);
    let ghost lv = lines_view(lines@);
    let mut kept: Vec<String> = Vec::new();
    let mut i: usize = 0;
    assert(lines_view(kept@) =~= kept_lines(lv.take(0), filepath@));
    while i < lines.len()
        invariant
            i <= lines.len(),
            lv == lines_view(lines@),
            lines_view(kept@) == kept_lines(lv.take(i as int), filepath@),
        decreases lines.len() - i,
    {
        let ghost t = lv.take(i + 1);
        assert(t.drop_last() =~= lv.take(i as int));
        let trimmed = trim_string(lines[i].as_str());
        let keep = if trimmed.as_str().unicode_len() == 0 {
            false
        } else {
            let parts = splitn_str(lines[i].as_str(), 3, ' ');
            if parts.len() < 3 {
                true
            } else {
                parts[2] != filepath.to_string()
            }
        };
        if keep {
            let ghost before = lines_view(kept@);
            kept.push(lines[i].clone());
            assert(lines_view(kept@) =~= before.push(t.last()));
        }
        i = i + 1;
    }
    assert(lv.take(lines.len() as int) =~= lv);
    let mut entry = mode.to_string();
    push_str(&mut entry, " ");
    push_str(&mut entry, blob_hash);
    push_str(&mut entry, " ");
    push_str(&mut entry, filepath);
    let ghost kb = lines_view(kept@);
    kept.push(entry);
    assert(lines_view(kept@) =~= kb.push(entry_line(mode@, blob_hash@, filepath@)));
    let mut out = join_strings(&kept, "\n");
    push_str(&mut out, "\n");
    out
}

/// The entries for paths other than `path`, in order.
pub open spec fn without_path(
    es: Seq<(Seq<char>, Seq<char>, Seq<char>)>,
    path: Seq<char>,
) -> Seq<(Seq<char>, Seq<char>, Seq<char>)>
    decreases es.len(),
{
    if es.len() == 0 {
        Seq::empty()
    } else {
        let rest = without_path(es.drop_last(), path);
        if es.last().2 != path {
            rest.push(es.last())
        } else {
            rest
        }
    }
}

/// The entries of the kept lines are the entries for other paths.
proof fn lemma_kept_entries(ls: Seq<Seq<char>>, path: Seq<char>)
    ensures
        entries_of_lines(kept_lines(ls, path)) == without_path(entries_of_lines(ls), path),
    decreases ls.len(),
{
    if ls.len() > 0 {
        lemma_kept_entries(ls.drop_last(), path);
        let k = kept_lines(ls.drop_last(), path);
        let ed = entries_of_lines(ls.drop_last());
        match entry_of_line(ls.last()) {
            Some(e) => {
                assert(ed.push(e).drop_last() =~= ed);
                assert(without_path(ed.push(e), path) == if e.2 != path {
                    without_path(ed, path).push(e)
                } else {
                    without_path(ed, path)
                });
            },
            None => {},
        }
        if keeps_line(ls.last(), path) {
            assert(kept_lines(ls, path).drop_last() =~= k);
        }
    }
}

/// The kept lines are lines of the index.
proof fn lemma_kept_from(ls: Seq<Seq<char>>, path: Seq<char>)
    ensures
        forall|i: int| 0 <= i < kept_lines(ls, path).len() ==> exists|j: int| 0 <= j < ls.len() && #[trigger] kept_lines(ls, path)[i] == ls[j],
        forall|i: int| 0 <= i < kept_lines(ls, path).len() ==> trim(#[trigger] kept_lines(ls, path)[i]).len() > 0,
    decreases ls.len(),
{
    if ls.len() > 0 {
        let t = ls.drop_last();
        lemma_kept_from(t, path);
        let k = kept_lines(ls, path);
        let kt = kept_lines(t, path);
        assert forall|i: int| 0 <= i < k.len() implies exists|j: int| 0 <= j < ls.len() && #[trigger] k[i] == ls[j] by {
            if i < kt.len() {
                assert(k[i] == kt[i]);
                let j = choose|j: int| 0 <= j < t.len() && kt[i] == t[j];
                assert(ls[j] == t[j]);
            } else {
                assert(k[i] == ls[ls.len() - 1]);
            }
        }
        assert forall|i: int| 0 <= i < k.len() implies trim(#[trigger] k[i]).len() > 0 by {
            if i < kt.len() {
                assert(k[i] == kt[i]);
            }
        }
    }
}

/// Staging a path and reading the index gives the entries for the other
/// paths as they were, then the new entry, where the mode and hash hold no
/// space and no newline, the path is not empty, holds no newline and does
/// not end in `\r`, the new entry's line is not blank, and no line of the
/// index ends in `\r`.
pub proof fn law_stage_then_read(existing: Seq<char>, mode: Seq<char>, hash: Seq<char>, path: Seq<char>)
    requires
        !has_char(mode, ' '),
        !has_char(mode, '\n'),
        !has_char(hash, ' '),
        !has_char(hash, '\n'),
        path.len() > 0,
        !has_char(path, '\n'),
        path.last() != '\r',
        trim(entry_line(mode, hash, path)).len() > 0,
        forall|i: int|
            0 <= i < text_lines(existing).len() ==> (#[trigger] text_lines(existing)[i]).len() == 0
                || text_lines(existing)[i].last() != '\r',
    ensures
        index_entries(staged_index_text(existing, mode, hash, path)) == without_path(
            index_entries(existing),
            path,
        ).push((mode, hash, path)),
{
    reveal_strlit(" ");
    reveal_strlit("\n");
    let ls = text_lines(existing);
    let kept = kept_lines(ls, path);
    let line = entry_line(mode, hash, path);
    let all = kept.push(line);
    lemma_text_lines_plain(existing);
    lemma_kept_from(ls, path);
    assert(" "@ =~= seq![' ']);
    assert forall|q: int| 0 <= q < line.len() implies line[q] != '\n' by {
        if q < mode.len() {
            assert(line[q] == mode[q]);
        } else if q == mode.len() {
            assert(line[q] == ' ');
        } else if q < mode.len() + 1 + hash.len() {
            assert(line[q] == hash[q - mode.len() - 1]);
        } else if q == mode.len() + 1 + hash.len() {
            assert(line[q] == ' ');
        } else {
            assert(line[q] == path[q - mode.len() - 2 - hash.len()]);
        }
    }
    assert(line.last() == path.last());
    assert forall|i: int| 0 <= i < all.len() implies (#[trigger] all[i]).len() > 0 && !has_char(all[i], '\n')
        && all[i].last() != '\r' by {
        if i < kept.len() {
            assert(all[i] == kept[i]);
            let j = choose|j: int| 0 <= j < ls.len() && kept[i] == ls[j];
            assert(trim(kept[i]).len() > 0);
            if kept[i].len() == 0 {
                assert(trim(kept[i]) =~= Seq::<char>::empty());
            }
            assert(!has_char(ls[j], '\n'));
        }
    }
    assert("\n"@ =~= seq!['\n']);
    lemma_lines_join_terminated(all);
    lemma_kept_entries(ls, path);
    let r = hash + seq![' '] + path;
    assert(line =~= mode + seq![' '] + r);
    lemma_split_first(mode, r, ' ');
    lemma_split_first(hash, path, ' ');
    assert(splitn_on(line, 3, ' ') =~= seq![mode] + (seq![hash] + splitn_on(path, 1, ' ')));
    assert(entry_of_line(line) == Some((mode, hash, path)));
    assert(all.drop_last() =~= kept);
}

/// What staging one path given to `add` came to.
pub enum AddOutcome {
    /// The path names nothing.
    Missing,
    /// It was staged.
    Added,
    /// It is neither a file nor a directory.
    Unsupported,
    /// Staging it failed with this message.
    Failed(String),
}

/// The message line for a path that could not be staged; none for one that
/// was.
pub open spec fn add_message(path: Seq<char>, o: AddOutcome) -> Option<Seq<char>> {
    match o {
        AddOutcome::Missing => Some("pathspec '"@ + path + "' did not match any files"@),
        AddOutcome::Added => None,
        AddOutcome::Unsupported => Some(path + ": unsupported path type: "@ + path),
        AddOutcome::Failed(e) => Some(path + ": "@ + e@),
    }
}

/// The message lines for the paths that could not be staged, in order.
pub open spec fn add_messages(paths: Seq<Seq<char>>, outcomes: Seq<AddOutcome>) -> Seq<Seq<char>>
    decreases paths.len(),
{
    if paths.len() == 0 || outcomes.len() < paths.len() {
        Seq::empty()
    } else {
        let rest = add_messages(paths.drop_last(), outcomes.take(paths.len() - 1));
        match add_message(paths.last(), outcomes[paths.len() - 1]) {
            Some(m) => rest.push(m),
            None => rest,
        }
    }
}

/// What `add` of `paths` reports, given what staging each came to
/// (`outcomes[i]` that of `paths[i]`): an error where no path was given, or
/// where some could not be staged (a line for each), else success.
pub fn add_paths(paths: &Vec<String>, outcomes: &Vec<AddOutcome>) -> (res: Result<(), GitError>)
    requires
        outcomes.len() == paths.len(),
    ensures
        paths@.len() == 0 ==> res matches Err(GitError::NothingSpecified),
        paths@.len() > 0 && add_messages(lines_view(paths@), outcomes@).len() == 0 ==> res is Ok,
        paths@.len() > 0 && add_messages(lines_view(paths@), outcomes@).len() > 0 ==> (res matches Err(
            GitError::AddFailures(t),
        ) && t@ == join_with(add_messages(lines_view(paths@), outcomes@), "\n"@)),
{
    if paths.len() == 0 {
        return Err(GitError::NothingSpecified);
    }
    let ghost pv = lines_view(paths@);
    let mut errors: Vec<String> = Vec::new();
    let mut i: usize = 0;
    assert(lines_view(errors@) =~= add_messages(pv.take(0), outcomes@.take(0)));
    while i < paths.len()
        invariant
            i <= paths.len(),
            outcomes.len() == paths.len(),
            pv == lines_view(paths@),
            lines_view(errors@) == add_messages(pv.take(i as int), outcomes@.take(i as int)),
        decreases paths.len() - i,
    {
        let ghost p1 = pv.take(i + 1);
        let ghost o1 = outcomes@.take(i + 1);
        assert(p1.drop_last() =~= pv.take(i as int));
        assert(o1.take(i as int) =~= outcomes@.take(i as int));
        let ghost before = lines_view(errors@);
        let p = &paths[i];
        match &outcomes[i] {
            AddOutcome::Missing => {
                let mut m = "pathspec '".to_string();
                push_str(&mut m, p.as_str());
                push_str(&mut m, "' did not match any files");
                errors.push(m);
            },
            AddOutcome::Added => {},
            AddOutcome::Unsupported => {
                let mut m = p.clone();
                push_str(&mut m, ": unsupported path type: ");
                push_str(&mut m, p.as_str());
                errors.push(m);
            },
            AddOutcome::Failed(e) => {
                let mut m = p.clone();
                push_str(&mut m, ": ");
                push_str(&mut m, e.as_str());
                errors.push(m);
            },
        }
        proof {
            match add_message(p1.last(), o1[i as int]) {
                Some(m) => {
                    assert(lines_view(errors@) =~= before.push(m));
                },
                None => {
                    assert(lines_view(errors@) =~= before);
                },
            }
        }
        i = i + 1;
    }
    assert(pv.take(paths.len() as int) =~= pv);
    assert(outcomes@.take(paths.len() as int) =~= outcomes@);
    if errors.len() > 0 {
        return Err(GitError::AddFailures(join_strings(&errors, "\n")));
    }
    Ok(())
}

/// The mode a file is staged with: a link, an executable (some execute bit
/// set) or a plain file.
pub open spec fn file_mode_of(is_link: bool, permissions: u32) -> Seq<char> {
    if is_link {
        "120000"@
    } else if permissions & 0o111u32 != 0 {
        "100755"@
    } else {
        "100644"@
    }
}

/// What staging a file with these contents does: the blob to store, and the
/// index text after it, the file's entry having its mode and the blob's hash.
pub fn add(contents: Vec<u8>, is_link: bool, permissions: u32, filepath: &str, index: &str) -> (res: Result<(GitObject, String), GitError>)
    ensures
        res matches Ok((blob, text)) && blob@ == built_object(Kind::Blob, contents@) && text@ == staged_index_text(
            index@,
            file_mode_of(is_link, permissions),
            crate::hexcode::hex_encoded(blob@.hash),
            filepath@,
        ),
{
    let blob = match GitObject::from_path(contents) {
        Ok(o) => o,
        Err(e) => {
            return Err(e);
        },
    };
    let hash = blob.hex_string();
    let mode = if is_link {
        "120000"
    } else if permissions & 0o111u32 != 0 {
        "100755"
    } else {
        "100644"
    };
    let text = stage_file(index, mode, hash.as_str(), filepath);
    Ok((blob, text))
}

} // verus!
