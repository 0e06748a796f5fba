//! The difference between two commits: its counts, and its patch by file and hunk.

use vstd::prelude::*;
use vstd::string::*;

use crate::error::QueryError;
use crate::graph::open;
use crate::hex::{decode, digit_text, hex_digit};
use crate::repo::{
    commit_tree, diff_stats, diff_trees, error_message, find_commit, parse_oid, patch_lines,
    stats_deletions, stats_insertions, well_formed_hash,
};
use crate::settings::Settings;
use crate::snapshot::SnapshotId;

verus! {

/// The decimal digits of `n`.
pub open spec fn decimal(n: nat) -> Seq<char>
    decreases n,
{
    if n < 10 {
        seq![hex_digit(n as int)]
    } else {
        decimal(n / 10).push(hex_digit((n % 10) as int))
    }
}

/// `n` spaces.
pub open spec fn spaces(n: nat) -> Seq<char> {
    Seq::new(n, |i: int| ' ')
}

/// `text` behind as many spaces as fill it up to `width` characters.
pub open spec fn right_aligned(text: Seq<char>, width: nat) -> Seq<char> {
    if text.len() >= width {
        text
    } else {
        spaces((width - text.len()) as nat) + text
    }
}

/// A line number as a patch shows it: in four columns, or four spaces where there is none.
pub open spec fn line_number(n: Option<u32>) -> Seq<char> {
    match n {
        Some(n) => right_aligned(decimal(n as nat), 4),
        None => spaces(4),
    }
}

/// A line of a hunk as it is shown: the two line numbers and the content, a space before each.
pub open spec fn line_text(old: Option<u32>, new: Option<u32>, content: Seq<char>) -> Seq<char> {
    seq![' '] + line_number(old) + seq![' '] + line_number(new) + seq![' '] + content
}

/// How many digits a number has.
pub proof fn lemma_decimal_len(n: nat)
    ensures
        decimal(n).len() >= 1,
        n < 10 ==> decimal(n).len() == 1,
        10 <= n < 100 ==> decimal(n).len() == 2,
        100 <= n < 1000 ==> decimal(n).len() == 3,
        1000 <= n ==> decimal(n).len() >= 4,
    decreases n,
{
    if n >= 10 {
        lemma_decimal_len(n / 10);
    }
}

/// The decimal digits of `n`.
pub fn to_decimal(n: u64) -> (text: String)
    ensures
        text@ == decimal(n as nat),
    decreases n,
{
    if n < 10 {
        let digit: u8 = n as u8;
        let text = String::from_str(digit_text(digit));
        text
    } else {
        let mut text = to_decimal(n / 10);
        let digit: u8 = (n % 10) as u8;
        text.append(digit_text(digit));
        assert(text@ =~= decimal(n as nat));
        text
    }
}

/// A line number in four columns.
fn line_number_text(n: Option<u32>) -> (text: String)
    ensures
        text@ == line_number(n),
{
    proof {
        reveal_strlit("    ");
        reveal_strlit("   ");
        reveal_strlit("  ");
        reveal_strlit(" ");
        reveal_strlit("");
    }
    match n {
        None => {
            let text = String::from_str("    ");
            assert(text@ =~= spaces(4));
            text
        },
        Some(n) => {
            let padding: &str = if n < 10 {
                "   "
            } else if n < 100 {
                "  "
            } else if n < 1000 {
                " "
            } else {
                ""
            };
            let mut text = String::from_str(padding);
            let digits = to_decimal(n as u64);
            proof {
                lemma_decimal_len(n as nat);
                assert(padding@ =~= spaces((4 - digits@.len()) as nat) || (digits@.len() >= 4
                    && padding@.len() == 0));
            }
            text.append(digits.as_str());
            assert(text@ =~= line_number(Some(n)));
            text
        },
    }
}

/// A line of a hunk as it is shown.
fn line_text_of(old: Option<u32>, new: Option<u32>, content: &String) -> (text: String)
    ensures
        text@ == line_text(old, new, content@),
{
    proof {
        reveal_strlit(" ");
    }
    let mut text = String::from_str(" ");
    text.append(line_number_text(old).as_str());
    text.append(" ");
    text.append(line_number_text(new).as_str());
    text.append(" ");
    text.append(content.as_str());
    assert(text@ =~= line_text(old, new, content@));
    text
}

/// The hunks of one file.
#[derive(Debug)]
pub struct FileDiff {
    /// Path of the file.
    pub file: String,
    /// The hunks, each as the text of its lines.
    pub hunks: Vec<String>,
}

/// The hunks of one file as a mathematical value.
pub struct FileView {
    pub file: Seq<char>,
    pub hunks: Seq<Seq<char>>,
}

impl View for FileDiff {
    type V = FileView;

    open spec fn view(&self) -> FileView {
        FileView { file: self.file@, hunks: self.hunks@.map_values(|hunk: String| hunk@) }
    }
}

/// The views of a sequence of files.
pub open spec fn file_views(files: Seq<FileDiff>) -> Seq<FileView> {
    files.map_values(|file: FileDiff| file@)
}

/// One line of a printed patch, with what it was printed with.
#[derive(Debug)]
pub struct PatchLine {
    /// Path of the new side of the file, where it is text.
    pub path: Option<String>,
    /// Whether the line belongs to a hunk, and the header of the hunk where that is text.
    pub hunk: Option<Option<String>>,
    /// The line itself, where it is text.
    pub content: Option<String>,
    pub old_lineno: Option<u32>,
    pub new_lineno: Option<u32>,
}

/// A line of a printed patch as a mathematical value.
pub struct LineView {
    pub path: Option<Seq<char>>,
    pub hunk: Option<Option<Seq<char>>>,
    pub content: Option<Seq<char>>,
    pub old_lineno: Option<u32>,
    pub new_lineno: Option<u32>,
}

impl View for PatchLine {
    type V = LineView;

    open spec fn view(&self) -> LineView {
        LineView {
            path: match self.path {
                Some(path) => Some(path@),
                None => None,
            },
            hunk: match self.hunk {
                Some(Some(header)) => Some(Some(header@)),
                Some(None) => Some(None),
                None => None,
            },
            content: match self.content {
                Some(content) => Some(content@),
                None => None,
            },
            old_lineno: self.old_lineno,
            new_lineno: self.new_lineno,
        }
    }
}

/// The views of a sequence of lines.
pub open spec fn line_views(lines: Seq<PatchLine>) -> Seq<LineView> {
    lines.map_values(|line: PatchLine| line@)
}

/// The lines of one hunk as they are shown, with the path of their file and the header of
/// their hunk.
#[derive(Debug)]
pub struct Hunk {
    /// Path of the file.
    pub path: String,
    /// Header of the hunk.
    pub header: String,
    /// The lines, each as it is shown.
    pub text: String,
}

/// The lines of a hunk as a mathematical value.
pub struct HunkView {
    pub path: Seq<char>,
    pub header: Seq<char>,
    pub text: Seq<char>,
}

impl View for Hunk {
    type V = HunkView;

    open spec fn view(&self) -> HunkView {
        HunkView { path: self.path@, header: self.header@, text: self.text@ }
    }
}

/// The views of a sequence of hunks.
pub open spec fn hunk_views(hunks: Seq<Hunk>) -> Seq<HunkView> {
    hunks.map_values(|hunk: Hunk| hunk@)
}

/// What `line` shows of its hunk: the line as it is shown, under the path of its file and the
/// header of its hunk. A line shows nothing where it belongs to no hunk, or where its path, the
/// header of its hunk or the line itself is no text.
pub open spec fn shown(line: LineView) -> Option<HunkView> {
    match (line.hunk, line.path, line.content) {
        (Some(Some(header)), Some(path), Some(content)) => Some(
            HunkView {
                path,
                header,
                text: line_text(line.old_lineno, line.new_lineno, content),
            },
        ),
        _ => None,
    }
}

/// What the lines of a patch show, in their order.
pub open spec fn shown_lines(lines: Seq<LineView>) -> Seq<HunkView>
    decreases lines.len(),
{
    if lines.len() == 0 {
        Seq::<HunkView>::empty()
    } else {
        match shown(lines.last()) {
            Some(piece) => shown_lines(lines.drop_last()).push(piece),
            None => shown_lines(lines.drop_last()),
        }
    }
}

/// `hunks` with `piece` joined on: to the last hunk, where `piece` is of that hunk, and as a
/// hunk of its own otherwise.
pub open spec fn join_piece(hunks: Seq<HunkView>, piece: HunkView) -> Seq<HunkView> {
    if hunks.len() > 0 && hunks.last().path == piece.path && hunks.last().header == piece.header {
        hunks.drop_last().push(
            HunkView {
                path: piece.path,
                header: piece.header,
                text: hunks.last().text + piece.text,
            },
        )
    } else {
        hunks.push(piece)
    }
}

/// The hunks of a patch: each run of pieces of one path and one header makes one hunk, whose
/// text is the texts of the pieces one after the other.
pub open spec fn joined_hunks(pieces: Seq<HunkView>) -> Seq<HunkView>
    decreases pieces.len(),
{
    if pieces.len() == 0 {
        Seq::<HunkView>::empty()
    } else {
        join_piece(joined_hunks(pieces.drop_last()), pieces.last())
    }
}

/// `files` with `hunk` joined on: to the last file, where `hunk` is of that file, and as the
/// first hunk of a further file otherwise.
pub open spec fn join_hunk(files: Seq<FileView>, hunk: HunkView) -> Seq<FileView> {
    if files.len() > 0 && files.last().file == hunk.path {
        files.drop_last().push(
            FileView { file: hunk.path, hunks: files.last().hunks.push(hunk.text) },
        )
    } else {
        files.push(FileView { file: hunk.path, hunks: seq![hunk.text] })
    }
}

/// The files of a patch: each run of hunks of one path makes one file with these hunks in
/// their order.
pub open spec fn joined_files(hunks: Seq<HunkView>) -> Seq<FileView>
    decreases hunks.len(),
{
    if hunks.len() == 0 {
        Seq::<FileView>::empty()
    } else {
        join_hunk(joined_files(hunks.drop_last()), hunks.last())
    }
}

/// The files that the lines of a patch are grouped into: every file that has a hunk, in the
/// order of the patch, with its hunks in their order, each hunk as the text of its lines.
pub open spec fn grouped(lines: Seq<LineView>) -> Seq<FileView> {
    joined_files(joined_hunks(shown_lines(lines)))
}

/// Every file of a grouping has a hunk, and no file follows a file of the same path.
pub proof fn lemma_joined_files(hunks: Seq<HunkView>)
    ensures
        forall|i: int|
            0 <= i < joined_files(hunks).len() ==> (#[trigger] joined_files(hunks)[i]).hunks.len()
                > 0,
        forall|i: int|
            0 < i < joined_files(hunks).len() ==> (#[trigger] joined_files(hunks)[i]).file
                != joined_files(hunks)[i - 1].file,
        hunks.len() > 0 ==> joined_files(hunks).len() > 0 && joined_files(hunks).last().file
            == hunks.last().path,
    decreases hunks.len(),
{
    if hunks.len() > 0 {
        let before: Seq<FileView> = joined_files(hunks.drop_last());
        let after: Seq<FileView> = joined_files(hunks);
        lemma_joined_files(hunks.drop_last());
        assert forall|i: int| 0 <= i < after.len() implies (#[trigger] after[i]).hunks.len()
            > 0 by {
            if i < before.len() - 1 || (i < before.len() && after.len() > before.len()) {
                assert(after[i] == before[i]);
            }
        }
        assert forall|i: int| 0 < i < after.len() implies (#[trigger] after[i]).file != after[i
            - 1].file by {
            if i < after.len() - 1 {
                assert(after[i] == before[i]);
                assert(after[i - 1] == before[i - 1]);
            } else if after.len() == before.len() {
                assert(after[i].file == before[i].file);
                assert(after[i - 1] == before[i - 1]);
            } else {
                assert(after[i - 1] == before[i - 1]);
            }
        }
    }
}

/// The pieces of one path and one header make one hunk of one file.
pub proof fn lemma_one_hunk(pieces: Seq<HunkView>)
    requires
        pieces.len() > 0,
        forall|i: int|
            0 <= i < pieces.len() ==> (#[trigger] pieces[i]).path == pieces[0].path
                && pieces[i].header == pieces[0].header,
    ensures
        joined_hunks(pieces).len() == 1,
        joined_hunks(pieces)[0].path == pieces[0].path,
        joined_hunks(pieces)[0].header == pieces[0].header,
        joined_files(joined_hunks(pieces)).len() == 1,
        joined_files(joined_hunks(pieces))[0].file == pieces[0].path,
        joined_files(joined_hunks(pieces))[0].hunks.len() == 1,
    decreases pieces.len(),
{
    let rest: Seq<HunkView> = pieces.drop_last();
    let last: HunkView = pieces.last();
    assert(last == pieces[pieces.len() - 1]);
    if pieces.len() > 1 {
        assert(rest[0] == pieces[0]);
        assert forall|i: int| 0 <= i < rest.len() implies (#[trigger] rest[i]).path
            == rest[0].path && rest[i].header == rest[0].header by {
            assert(rest[i] == pieces[i]);
        }
        lemma_one_hunk(rest);
        let before: Seq<HunkView> = joined_hunks(rest);
        assert(before.last() == before[0]);
        assert(joined_hunks(pieces) == join_piece(before, last));
        assert(joined_hunks(pieces).len() == 1);
    } else {
        assert(rest.len() == 0);
        assert(joined_hunks(rest).len() == 0);
        assert(joined_hunks(pieces) == join_piece(joined_hunks(rest), last));
        assert(joined_hunks(pieces).len() == 1);
    }
    let hunks: Seq<HunkView> = joined_hunks(pieces);
    assert(hunks.drop_last().len() == 0);
    assert(joined_files(hunks.drop_last()).len() == 0);
    assert(joined_files(hunks) == join_hunk(joined_files(hunks.drop_last()), hunks.last()));
}

/// The hunks of pieces of one path are hunks of that path, and there is one where there is a
/// piece.
pub proof fn lemma_hunks_of_one_path(pieces: Seq<HunkView>, path: Seq<char>)
    requires
        forall|i: int| 0 <= i < pieces.len() ==> (#[trigger] pieces[i]).path == path,
    ensures
        forall|i: int|
            0 <= i < joined_hunks(pieces).len() ==> (#[trigger] joined_hunks(pieces)[i]).path
                == path,
        pieces.len() > 0 ==> joined_hunks(pieces).len() > 0,
    decreases pieces.len(),
{
    if pieces.len() > 0 {
        let rest: Seq<HunkView> = pieces.drop_last();
        assert forall|i: int| 0 <= i < rest.len() implies (#[trigger] rest[i]).path == path by {
            assert(rest[i] == pieces[i]);
        }
        lemma_hunks_of_one_path(rest, path);
        let before: Seq<HunkView> = joined_hunks(rest);
        let after: Seq<HunkView> = joined_hunks(pieces);
        assert(pieces.last() == pieces[pieces.len() - 1]);
        assert forall|i: int| 0 <= i < after.len() implies (#[trigger] after[i]).path == path by {
            if i < after.len() - 1 {
                assert(after[i] == before[i]);
            }
        }
    }
}

/// The hunks of one path make one file. A patch whose pieces all carry one path, and that has
/// a piece, is grouped into one file of that path.
pub proof fn lemma_one_file(hunks: Seq<HunkView>, path: Seq<char>)
    requires
        hunks.len() > 0,
        forall|i: int| 0 <= i < hunks.len() ==> (#[trigger] hunks[i]).path == path,
    ensures
        joined_files(hunks).len() == 1,
        joined_files(hunks)[0].file == path,
        joined_files(hunks)[0].hunks.len() == hunks.len(),
    decreases hunks.len(),
{
    let rest: Seq<HunkView> = hunks.drop_last();
    assert(hunks.last() == hunks[hunks.len() - 1]);
    if rest.len() > 0 {
        assert forall|i: int| 0 <= i < rest.len() implies (#[trigger] rest[i]).path == path by {
            assert(rest[i] == hunks[i]);
        }
        lemma_one_file(rest, path);
        assert(joined_files(rest).last() == joined_files(rest)[0]);
    } else {
        assert(joined_files(rest).len() == 0);
    }
}

/// What a line shows of its hunk.
pub fn show(line: &PatchLine) -> (piece: Option<Hunk>)
    ensures
        piece is Some <==> shown(line@) is Some,
        piece matches Some(found) ==> shown(line@) == Some(found@),
{
    match (&line.hunk, &line.path, &line.content) {
        (Some(Some(header)), Some(path), Some(content)) => Some(
            Hunk {
                path: path.clone(),
                header: header.clone(),
                text: line_text_of(line.old_lineno, line.new_lineno, content),
            },
        ),
        _ => None,
    }
}

/// What the lines of a patch show, in their order.
pub fn show_lines(lines: &Vec<PatchLine>) -> (pieces: Vec<Hunk>)
    ensures
        hunk_views(pieces@) == shown_lines(line_views(lines@)),
{
    let mut pieces: Vec<Hunk> = Vec::new();
    let mut i: usize = 0;
    assert(hunk_views(pieces@) =~= shown_lines(line_views(lines@).take(0)));
    while i < lines.len()
        invariant
            i <= lines.len(),
            hunk_views(pieces@) == shown_lines(line_views(lines@).take(i as int)),
        decreases lines.len() - i,
    {
        let ghost before: Seq<Hunk> = pieces@;
        proof {
            let longer: Seq<LineView> = line_views(lines@).take(i as int + 1);
            assert(longer.drop_last() =~= line_views(lines@).take(i as int));
            assert(longer.last() == lines@[i as int]@);
        }
        match show(&lines[i]) {
            Some(piece) => {
                pieces.push(piece);
                assert(hunk_views(pieces@) =~= hunk_views(before).push(piece@));
            },
            None => {},
        }
        i += 1;
    }
    assert(line_views(lines@).take(i as int) =~= line_views(lines@));
    pieces
}

/// Joins the pieces of a patch to its hunks.
pub fn join_hunks(pieces: &Vec<Hunk>) -> (hunks: Vec<Hunk>)
    ensures
        hunk_views(hunks@) == joined_hunks(hunk_views(pieces@)),
{
    let mut hunks: Vec<Hunk> = Vec::new();
    let mut i: usize = 0;
    assert(hunk_views(hunks@) =~= joined_hunks(hunk_views(pieces@).take(0)));
    while i < pieces.len()
        invariant
            i <= pieces.len(),
            hunk_views(hunks@) == joined_hunks(hunk_views(pieces@).take(i as int)),
        decreases pieces.len() - i,
    {
        let ghost before: Seq<Hunk> = hunks@;
        let piece = &pieces[i];
        proof {
            let longer: Seq<HunkView> = hunk_views(pieces@).take(i as int + 1);
            assert(longer.drop_last() =~= hunk_views(pieces@).take(i as int));
            assert(longer.last() == piece@);
        }
        let same: bool = hunks.len() > 0 && hunks[hunks.len() - 1].path == piece.path
            && hunks[hunks.len() - 1].header == piece.header;
        if same {
            let last = hunks.pop().unwrap();
            let Hunk { path, header, text } = last;
            let mut text = text;
            text.append(piece.text.as_str());
            let longer = Hunk { path, header, text };
            hunks.push(longer);
            assert(hunk_views(hunks@) =~= join_piece(hunk_views(before), piece@));
        } else {
            let copy = Hunk {
                path: piece.path.clone(),
                header: piece.header.clone(),
                text: piece.text.clone(),
            };
            hunks.push(copy);
            assert(hunk_views(hunks@) =~= join_piece(hunk_views(before), piece@));
        }
        i += 1;
    }
    assert(hunk_views(pieces@).take(i as int) =~= hunk_views(pieces@));
    hunks
}

/// Joins the hunks of a patch to its files.
pub fn join_files(hunks: &Vec<Hunk>) -> (files: Vec<FileDiff>)
    ensures
        file_views(files@) == joined_files(hunk_views(hunks@)),
{
    let mut files: Vec<FileDiff> = Vec::new();
    let mut i: usize = 0;
    assert(file_views(files@) =~= joined_files(hunk_views(hunks@).take(0)));
    while i < hunks.len()
        invariant
            i <= hunks.len(),
            file_views(files@) == joined_files(hunk_views(hunks@).take(i as int)),
        decreases hunks.len() - i,
    {
        let ghost before: Seq<FileDiff> = files@;
        let hunk = &hunks[i];
        proof {
            let longer: Seq<HunkView> = hunk_views(hunks@).take(i as int + 1);
            assert(longer.drop_last() =~= hunk_views(hunks@).take(i as int));
            assert(longer.last() == hunk@);
        }
        let same: bool = files.len() > 0 && files[files.len() - 1].file == hunk.path;
        if same {
            let last = files.pop().unwrap();
            let FileDiff { file, hunks: texts } = last;
            let mut texts = texts;
            texts.push(hunk.text.clone());
            let longer = FileDiff { file, hunks: texts };
            assert(longer@.hunks =~= last@.hunks.push(hunk@.text));
            files.push(longer);
            assert(file_views(files@) =~= join_hunk(file_views(before), hunk@));
        } else {
            let mut texts: Vec<String> = Vec::new();
            texts.push(hunk.text.clone());
            let opened = FileDiff { file: hunk.path.clone(), hunks: texts };
            assert(opened@.hunks =~= seq![hunk@.text]);
            files.push(opened);
            assert(file_views(files@) =~= join_hunk(file_views(before), hunk@));
        }
        i += 1;
    }
    assert(hunk_views(hunks@).take(i as int) =~= hunk_views(hunks@));
    files
}

/// Groups the lines of a printed patch into files and hunks.
pub fn group_hunks(lines: &Vec<PatchLine>) -> (files: Vec<FileDiff>)
    ensures
        file_views(files@) == grouped(line_views(lines@)),
{
    let pieces = show_lines(lines);
    let hunks = join_hunks(&pieces);
    join_files(&hunks)
}

/// The tree of the commit under `id`, or `RootNotFound`.
fn found_tree<'repo>(repo: &'repo git2::Repository, id: &SnapshotId) -> (tree: Result<
    git2::Tree<'repo>,
    QueryError,
>)
    ensures
        tree matches Err(error) ==> error is RootNotFound,
{
    let found = match find_commit(repo, id) {
        Ok(found) => found,
        Err(error) => {
            return Err(QueryError::RootNotFound(error_message(&error)));
        },
    };
    match commit_tree(&found) {
        Ok(tree) => Ok(tree),
        Err(error) => Err(QueryError::RootNotFound(error_message(&error))),
    }
}

/// The difference that leads from the commit under `old` to the commit under `new`. Fails with
/// `RootNotFound` where one of the two cannot be had, and with `StorageUnavailable` where the
/// difference cannot be made.
fn difference<'repo>(repo: &'repo git2::Repository, old: &SnapshotId, new: &SnapshotId) -> (diff:
    Result<git2::Diff<'repo>, QueryError>)
    ensures
        diff matches Err(error) ==> error is RootNotFound || error is StorageUnavailable,
{
    let old = match found_tree(repo, old) {
        Ok(tree) => tree,
        Err(error) => {
            return Err(error);
        },
    };
    let new = match found_tree(repo, new) {
        Ok(tree) => tree,
        Err(error) => {
            return Err(error);
        },
    };
    match diff_trees(repo, &old, &new) {
        Ok(diff) => Ok(diff),
        Err(error) => Err(QueryError::StorageUnavailable(error_message(&error))),
    }
}

/// The two hashes that `commit_a` and `commit_b` spell, or `MalformedId` where one of them
/// spells none.
pub fn two_hashes(commit_a: &str, commit_b: &str) -> (hashes: Result<
    (SnapshotId, SnapshotId),
    QueryError,
>)
    ensures
        hashes is Ok <==> well_formed_hash(commit_a@) && well_formed_hash(commit_b@),
        hashes matches Ok(pair) ==> pair.0.0@ == decode(commit_a@, 20) && pair.1.0@ == decode(
            commit_b@,
            20,
        ),
        hashes matches Err(error) ==> error is MalformedId,
{
    let old = match parse_oid(commit_a) {
        Ok(id) => id,
        Err(_) => {
            return Err(QueryError::MalformedId);
        },
    };
    match parse_oid(commit_b) {
        Ok(new) => Ok((old, new)),
        Err(_) => Err(QueryError::MalformedId),
    }
}

/// The counts of a difference as they are sent: both in decimal, in square brackets, a comma
/// between them.
pub open spec fn summary_text(insertions: nat, deletions: nat) -> Seq<char> {
    seq!['['] + decimal(insertions) + seq![','] + decimal(deletions) + seq![']']
}

/// The counts of a difference as they are sent.
pub fn summary_of(insertions: usize, deletions: usize) -> (text: String)
    ensures
        text@ == summary_text(insertions as nat, deletions as nat),
{
    proof {
        reveal_strlit("[");
        reveal_strlit(",");
        reveal_strlit("]");
    }
    let mut text = String::from_str("[");
    text.append(to_decimal(insertions as u64).as_str());
    text.append(",");
    text.append(to_decimal(deletions as u64).as_str());
    text.append("]");
    assert(text@ =~= summary_text(insertions as nat, deletions as nat));
    text
}

/// How many lines the difference between the commits `commit_a` and `commit_b` puts in and
/// takes out, as `[insertions,deletions]`: what `summary_of` makes of the two counts. Fails with
/// `MalformedId` exactly where one of the two spells no hash.
pub fn get_diff_summary(settings: &Settings, commit_a: &str, commit_b: &str) -> (summary: Result<
    String,
    QueryError,
>)
    ensures
        !(well_formed_hash(commit_a@) && well_formed_hash(commit_b@)) <==> summary is Err
            && summary->Err_0 is MalformedId,
        summary matches Ok(text) ==> exists|insertions: nat, deletions: nat|
            text@ == #[trigger] summary_text(insertions, deletions),
        summary matches Err(error) ==> error is MalformedId || error is StorageUnavailable
            || error is RootNotFound,
{
    let (old, new) = match two_hashes(commit_a, commit_b) {
        Ok(pair) => pair,
        Err(error) => {
            return Err(error);
        },
    };
    let repo = match open(settings.repo.as_str()) {
        Ok(repo) => repo,
        Err(error) => {
            return Err(error);
        },
    };
    let diff = match difference(&repo, &old, &new) {
        Ok(diff) => diff,
        Err(error) => {
            return Err(error);
        },
    };
    match diff_stats(&diff) {
        Ok(stats) => Ok(summary_of(stats_insertions(&stats), stats_deletions(&stats))),
        Err(error) => Err(QueryError::StorageUnavailable(error_message(&error))),
    }
}

/// The patch that leads from the commit `commit_a` to the commit `commit_b`, grouped into files
/// and hunks: what `group_hunks` makes of its lines. Fails with `MalformedId` exactly where one
/// of the two spells no hash.
pub fn get_diff(settings: &Settings, commit_a: &str, commit_b: &str) -> (files: Result<
    Vec<FileDiff>,
    QueryError,
>)
    ensures
        !(well_formed_hash(commit_a@) && well_formed_hash(commit_b@)) <==> files is Err
            && files->Err_0 is MalformedId,
        files matches Ok(found) ==> exists|lines: Seq<LineView>|
            file_views(found@) == #[trigger] grouped(lines),
        files matches Err(error) ==> error is MalformedId || error is StorageUnavailable
            || error is RootNotFound,
{
    let (old, new) = match two_hashes(commit_a, commit_b) {
        Ok(pair) => pair,
        Err(error) => {
            return Err(error);
        },
    };
    let repo = match open(settings.repo.as_str()) {
        Ok(repo) => repo,
        Err(error) => {
            return Err(error);
        },
    };
    let diff = match difference(&repo, &old, &new) {
        Ok(diff) => diff,
        Err(error) => {
            return Err(error);
        },
    };
    match patch_lines(&diff) {
        Ok(lines) => Ok(group_hunks(&lines)),
        Err(error) => Err(QueryError::StorageUnavailable(error_message(&error))),
    }
}

} // verus!
