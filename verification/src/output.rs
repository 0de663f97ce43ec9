//! What the user asks for, and where the downloaded data go.

use crate::error::Error;
use crate::text::{
    begins_with, chars_of, is_white_space, law_lowered, law_trimmed, lower, lowered, same_text,
    starts_with, texts, to_lower, trim, trimmed, white_space,
};
use crate::torrent::{
    concatenated, described, file_views, files_length, BencodeFile, BencodeInfo, FileView,
    TorrentView,
};
use vstd::prelude::*;

verus! {

/// A torrent as the user names it.
#[derive(Debug, PartialEq, Eq)]
pub enum Input {
    /// A magnet link
    Magnet(String),
    /// The path of a torrent file
    File(String),
}

/// Whether an argument is a magnet link, whatever the case of its scheme and the
/// space around it.
pub open spec fn is_magnet_link(argument: Seq<char>) -> bool {
    begins_with(lowered(trimmed(argument)), "magnet:"@)
}

proof fn lemma_link_letters(c: char)
    ensures
        white_space(c) ==> !(lower(c) == 'm' || lower(c) == ':'),
{
}

/// An argument is a magnet link just when it has the letters of `magnet:`, of either case,
/// behind any amount of white space.
pub proof fn law_magnet_link(argument: Seq<char>, at: int)
    ensures
        0 <= at && at + 7 <= argument.len() && (forall|i: int|
            0 <= i < at ==> white_space(#[trigger] argument[i])) && (forall|k: int|
            0 <= k < 7 ==> lower(argument[at + k]) == #[trigger] "magnet:"@[k])
            ==> is_magnet_link(argument),
        is_magnet_link(argument) ==> exists|from: int|
            #![trigger argument.skip(from)]
            0 <= from && from + 7 <= argument.len() && (forall|i: int|
                0 <= i < from ==> white_space(#[trigger] argument[i])) && (forall|k: int|
                0 <= k < 7 ==> lower(argument[from + k]) == #[trigger] "magnet:"@[k]),
{
    reveal_strlit("magnet:");
    let scheme = "magnet:"@;
    let (from, to) = law_trimmed(argument);
    let word = trimmed(argument);
    law_lowered(word);
    if is_magnet_link(argument) {
        assert(lowered(word).take(7) == scheme);
        assert forall|k: int| 0 <= k < 7 implies lower(argument[from + k]) == #[trigger] scheme[k] by {
            assert(lowered(word).take(7)[k] == scheme[k]);
            assert(word[k] == argument[from + k]);
        }
        assert(argument.skip(from).len() >= 7);
    }
    if 0 <= at && at + 7 <= argument.len() && (forall|i: int|
        0 <= i < at ==> white_space(#[trigger] argument[i])) && (forall|k: int|
        0 <= k < 7 ==> lower(argument[at + k]) == #[trigger] scheme[k]) {
        assert(scheme[0] == 'm' && scheme[6] == ':');
        lemma_link_letters(argument[at + 0]);
        lemma_link_letters(argument[at + 6]);
        assert(!white_space(argument[at]));
        assert(!white_space(argument[at + 6]));
        assert(from == at && to >= at + 7);
        assert forall|k: int| 0 <= k < 7 implies lowered(word).take(7)[k] == scheme[k] by {
            assert(word[k] == argument[at + k]);
            assert(lower(argument[at + k]) == scheme[k]);
        }
        assert(lowered(word).take(7) =~= scheme);
    }
}

/// Tells magnet links from paths. A path is taken without the space around it.
pub fn classify_input(argument: &str) -> (r: Input)
    ensures
        match r {
            Input::Magnet(uri) => is_magnet_link(argument@) && uri@ == argument@,
            Input::File(path) => !is_magnet_link(argument@) && path@ == trimmed(argument@),
        },
{
    let path = trim(argument);
    if starts_with(to_lower(path.as_str()).as_str(), "magnet:") {
        Input::Magnet(argument.to_owned())
    } else {
        Input::File(path)
    }
}

/// Whether the user's answer is yes.
pub fn is_yes(answer: &str) -> (r: bool)
    ensures
        r == ({
            let word = lowered(trimmed(answer@));
            word == "y"@ || word == "yes"@
        }),
{
    let word = to_lower(trim(answer).as_str());
    same_text(word.as_str(), "y") || same_text(word.as_str(), "yes")
}

/// Whether `c` separates the components of a path.
pub open spec fn is_separator(c: char) -> bool {
    c == '/' || c == '\\'
}

/// `s` with an underscore in place of each path separator.
pub open spec fn joined(s: Seq<char>) -> Seq<char> {
    s.map_values(
        |c: char|
            if is_separator(c) {
                '_'
            } else {
                c
            },
    )
}

/// Whether `s` is empty or all white space.
pub open spec fn blank(s: Seq<char>) -> bool {
    forall|i: int| 0 <= i < s.len() ==> white_space(#[trigger] s[i])
}

/// A safe form of a filename: without path separators, not blank, and not the name of
/// the parent directory.
pub open spec fn sanitized(filename: Seq<char>) -> Seq<char> {
    if blank(joined(filename)) || filename == ".."@ {
        "download"@
    } else {
        joined(filename)
    }
}

/// A sanitized filename has no path separator and is not blank, and a filename that
/// has none, is not blank and does not name the parent directory stays as it is.
pub proof fn law_sanitized(filename: Seq<char>)
    ensures
        forall|i: int|
            0 <= i < sanitized(filename).len() ==> !is_separator(#[trigger] sanitized(filename)[i]),
        !blank(sanitized(filename)),
        !blank(filename) && filename != ".."@ && (forall|i: int|
            0 <= i < filename.len() ==> !is_separator(#[trigger] filename[i])) ==> sanitized(
            filename,
        ) == filename,
{
    reveal_strlit("download");
    if blank(joined(filename)) || filename == ".."@ {
        assert("download"@[0] == 'd');
        assert(!white_space("download"@[0]));
    }
    if !blank(filename) && (forall|i: int|
        0 <= i < filename.len() ==> !is_separator(#[trigger] filename[i])) {
        assert(joined(filename) =~= filename);
    }
}

/// A sanitized filename does not lead out of its directory: it is a single path
/// component, and not the one for the parent directory.
pub proof fn law_no_traversal(filename: Seq<char>)
    ensures
        forall|i: int|
            0 <= i < sanitized(filename).len() ==> !is_separator(#[trigger] sanitized(filename)[i]),
        sanitized(filename) != ".."@,
{
    law_sanitized(filename);
    reveal_strlit("download");
    reveal_strlit("..");
    if joined(filename) == ".."@ {
        assert(filename =~= ".."@) by {
            assert forall|i: int| 0 <= i < filename.len() implies filename[i] == ".."@[i] by {
                assert(joined(filename)[i] == '.');
            }
        }
    }
    assert("download"@.len() != ".."@.len());
}

/// A filename that is more than white space and does not name the parent directory keeps its
/// length and all its characters, but for slashes and backslashes, which become underscores.
/// Any other becomes `download`.
pub proof fn law_sanitized_characters(filename: Seq<char>, at: int)
    ensures
        0 <= at < filename.len() && !white_space(filename[at]) && filename != ".."@ ==> {
            &&& sanitized(filename).len() == filename.len()
            &&& forall|i: int|
                0 <= i < filename.len() ==> #[trigger] sanitized(filename)[i] == if filename[i]
                    == '/' || filename[i] == '\\' {
                    '_'
                } else {
                    filename[i]
                }
        },
        (forall|i: int| 0 <= i < filename.len() ==> white_space(#[trigger] filename[i]))
            ==> sanitized(filename) == "download"@,
        filename == ".."@ ==> sanitized(filename) == "download"@,
        forall|i: int|
            0 <= i < sanitized(filename).len() ==> #[trigger] sanitized(filename)[i] != '/'
                && sanitized(filename)[i] != '\\',
{
    reveal_strlit("download");
    let j = joined(filename);
    if 0 <= at < filename.len() && !white_space(filename[at]) {
        assert(!white_space(j[at]));
        assert(!blank(j));
    }
    if forall|i: int| 0 <= i < filename.len() ==> white_space(#[trigger] filename[i]) {
        assert forall|i: int| 0 <= i < j.len() implies white_space(#[trigger] j[i]) by {
            assert(white_space(filename[i]));
        }
    }
}

/// Sanitizing a filename twice is the same as doing it once.
pub proof fn law_sanitized_once(filename: Seq<char>)
    ensures
        sanitized(sanitized(filename)) == sanitized(filename),
{
    law_sanitized(filename);
    law_no_traversal(filename);
    law_sanitized(sanitized(filename));
}

/// Sanitizes a filename: path separators become underscores, and a blank name or that
/// of the parent directory becomes `download`.
pub fn sanitize_filename(filename: &str) -> (r: String)
    ensures
        r@ == sanitized(filename@),
{
    let chars = chars_of(filename);
    let mut safe_name: String = String::new();
    let mut all_blank = true;
    let mut i: usize = 0;
    while i < chars.len()
        invariant
            i <= chars@.len(),
            chars@ == filename@,
            safe_name@ == joined(filename@).take(i as int),
            all_blank == blank(safe_name@),
        decreases chars@.len() - i,
    {
        let c = if chars[i] == '/' || chars[i] == '\\' {
            '_'
        } else {
            chars[i]
        };
        let ghost before = safe_name@;
        safe_name.push(c);
        all_blank = all_blank && is_white_space(c);
        i += 1;
        assert(safe_name@ =~= joined(filename@).take(i as int));
        assert(blank(before.push(c)) == (blank(before) && white_space(c))) by {
            if blank(before.push(c)) {
                assert forall|k: int| 0 <= k < before.len() implies white_space(
                    #[trigger] before[k],
                ) by {
                    assert(before.push(c)[k] == before[k]);
                }
                assert(before.push(c)[before.len() as int] == c);
            }
        }
    }
    assert(joined(filename@).take(i as int) =~= joined(filename@));
    if all_blank || same_text(filename, "..") {
        "download".to_owned()
    } else {
        safe_name
    }
}

/// Sanitizes each component of a file's path.
pub fn sanitize_path(path: &Vec<String>) -> (r: Vec<String>)
    ensures
        texts(r@) == texts(path@).map_values(|component: Seq<char>| sanitized(component)),
{
    let ghost all = texts(path@).map_values(|component: Seq<char>| sanitized(component));
    let mut components: Vec<String> = Vec::new();
    let mut i: usize = 0;
    while i < path.len()
        invariant
            i <= path@.len(),
            all == texts(path@).map_values(|component: Seq<char>| sanitized(component)),
            texts(components@) == all.take(i as int),
        decreases path@.len() - i,
    {
        let ghost before = components@;
        let component = sanitize_filename(path[i].as_str());
        components.push(component);
        i += 1;
        assert(texts(components@) =~= texts(before).push(component@));
        assert(texts(components@) =~= all.take(i as int));
    }
    assert(all.take(i as int) =~= all);
    components
}

/// The name to save the data under: the one the user gave, or else a safe form of the
/// torrent's name.
pub fn output_name(output: Option<&str>, name: &str) -> (r: String)
    ensures
        r@ == match output {
            Some(output) => output@,
            None => sanitized(name@),
        },
{
    match output {
        Some(output) => output.to_owned(),
        None => sanitize_filename(name),
    }
}

/// Goes through the data of a multi-file torrent, file by file.
pub struct FileCursor {
    offset: u64,
    available: usize,
}

impl FileCursor {
    /// Where the next file begins.
    pub closed spec fn position(self) -> nat {
        self.offset as nat
    }

    /// The size of the data.
    pub closed spec fn size(self) -> nat {
        self.available as nat
    }

    /// Begins with the first file.
    pub fn new(data: &[u8]) -> (r: FileCursor)
        ensures
            r.position() == 0,
            r.size() == data@.len(),
    {
        FileCursor { offset: 0, available: data.len() }
    }

    /// The byte range of the next file, which has this length. The file must not extend
    /// beyond the data.
    pub fn next_range(&mut self, length: u64) -> (r: Result<(usize, usize), Error>)
        requires
            old(self).position() + length <= u64::MAX,
        ensures
            final(self).size() == old(self).size(),
            ({
                let begin = old(self).position();
                let end = begin + length as nat;
                match r {
                    Ok((from, to)) => {
                        &&& end <= old(self).size()
                        &&& from == begin
                        &&& to == end
                        &&& advanced(*old(self), length, *final(self))
                    },
                    Err(e) => {
                        &&& end > old(self).size()
                        &&& e == Error::FileBeyondData {
                            offset: begin as u64,
                            length,
                            available: old(self).size() as u64,
                        }
                        &&& final(self).position() == begin
                    },
                }
            }),
    {
        let end: u64 = self.offset + length;
        if end > self.available as u64 {
            return Err(
                Error::FileBeyondData {
                    offset: self.offset,
                    length,
                    available: self.available as u64,
                },
            );
        }
        let range = (self.offset as usize, end as usize);
        self.offset = end;
        Ok(range)
    }

    /// Whether the end of the next file, if it has this length, can be written down.
    pub fn can_advance(&self, length: u64) -> (r: bool)
        ensures
            r == (self.position() + length <= u64::MAX),
    {
        length <= u64::MAX - self.offset
    }
}

/// Whether `after` is the cursor `before` once a file of this length has been passed.
pub open spec fn advanced(before: FileCursor, length: u64, after: FileCursor) -> bool {
    &&& after.position() == before.position() + length as nat
    &&& after.size() == before.size()
}

/// A cursor that begins at zero and passes the files one by one stands at the beginning of
/// each in turn: the range of file `k` is from where that file begins to where the next
/// does.
pub proof fn law_cursor_follows_files(cursors: Seq<FileCursor>, files: Seq<FileView>, k: int)
    requires
        0 <= k < cursors.len(),
        cursors.len() <= files.len() + 1,
        cursors[0].position() == 0,
        forall|i: int|
            0 <= i < cursors.len() - 1 ==> advanced(
                #[trigger] cursors[i],
                files[i].length,
                cursors[i + 1],
            ),
    ensures
        cursors[k].position() == file_begin(files, k),
        cursors[k].size() == cursors[0].size(),
        k < files.len() ==> cursors[k].position() + files[k].length == file_begin(files, k + 1),
    decreases k,
{
    if k > 0 {
        law_cursor_follows_files(cursors, files, k - 1);
        assert(advanced(cursors[k - 1], files[k - 1].length, cursors[k - 1 + 1]));
    }
}

/// Where file `i` begins in the data: behind all files before it.
pub open spec fn file_begin(files: Seq<FileView>, i: int) -> nat
    decreases i,
{
    if i <= 0 {
        0
    } else {
        file_begin(files, i - 1) + files[i - 1].length as nat
    }
}

/// The contents of the first `n` files.
pub open spec fn file_contents(data: Seq<u8>, files: Seq<FileView>, n: nat) -> Seq<Seq<u8>> {
    Seq::new(
        n,
        |i: int| data.subrange(file_begin(files, i) as int, file_begin(files, i + 1) as int),
    )
}

proof fn lemma_file_begin_grows(files: Seq<FileView>, i: int, j: int)
    requires
        0 <= i <= j,
    ensures
        file_begin(files, i) <= file_begin(files, j),
    decreases j - i,
{
    if i < j {
        lemma_file_begin_grows(files, i, j - 1);
    }
}

/// The files share out the data: their contents, put behind one another, are the data
/// up to the end of the last file.
pub proof fn law_files_partition(data: Seq<u8>, files: Seq<FileView>, n: nat)
    requires
        n <= files.len(),
        file_begin(files, n as int) <= data.len(),
    ensures
        concatenated(file_contents(data, files, n)) == data.take(file_begin(files, n as int) as int),
    decreases n,
{
    let contents = file_contents(data, files, n);
    if n == 0 {
        assert(data.take(0) =~= seq![]);
    } else {
        let m = (n - 1) as nat;
        lemma_file_begin_grows(files, m as int, n as int);
        law_files_partition(data, files, m);
        assert(contents.drop_last() =~= file_contents(data, files, m));
        assert(data.take(file_begin(files, n as int) as int) =~= data.take(
            file_begin(files, m as int) as int,
        ) + contents.last());
    }
}

proof fn lemma_file_begin_is_sum(files: Seq<BencodeFile>, n: int)
    requires
        0 <= n <= files.len(),
    ensures
        file_begin(file_views(files), n) == files_length(files.take(n)),
    decreases n,
{
    if n > 0 {
        lemma_file_begin_is_sum(files, n - 1);
        assert(files.take(n).drop_last() =~= files.take(n - 1));
    }
}

/// Of a torrent opened with some files, file `i` begins in the data where the sizes of the
/// files before it in the info dictionary add up to, and ends where its own size is added.
/// The contents of all its files, put behind one another, are the data.
pub proof fn law_opened_files(
    torrent: TorrentView,
    info: BencodeInfo,
    files: Vec<BencodeFile>,
    data: Seq<u8>,
    i: int,
)
    requires
        info.pieces@.len() % 20 == 0,
        info.length is None,
        info.files == Some(files),
        files_length(files@) <= u64::MAX,
        data.len() == files_length(files@),
        0 <= i < files@.len(),
    ensures
        ({
            let opened = described(torrent, info);
            &&& opened.length == data.len()
            &&& opened.files.len() == files@.len()
            &&& file_begin(opened.files, i) == files_length(files@.take(i))
            &&& file_begin(opened.files, i + 1) == files_length(files@.take(i)) + files@[i].length
            &&& concatenated(file_contents(data, opened.files, opened.files.len())) == data
        }),
{
    lemma_file_begin_is_sum(files@, i);
    lemma_file_begin_is_sum(files@, i + 1);
    assert(files@.take(i + 1).drop_last() =~= files@.take(i));
    law_files_use_up_data(data, files@);
}

/// The files of a torrent use up its data: when the data have the total size of the
/// files, the contents of all files, put behind one another, are the data.
pub proof fn law_files_use_up_data(data: Seq<u8>, files: Seq<BencodeFile>)
    requires
        data.len() == files_length(files),
    ensures
        concatenated(file_contents(data, file_views(files), files.len())) == data,
{
    lemma_file_begin_is_sum(files, files.len() as int);
    assert(files.take(files.len() as int) =~= files);
    law_files_partition(data, file_views(files), files.len());
    assert(data.take(data.len() as int) =~= data);
}

} // verus!
