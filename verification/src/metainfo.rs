//! What a torrent consists of.

use crate::bencode;
use crate::bencode::{BencodeModel, BencodeValue, Parsed, ParsedBytes};
use crate::bytes;
use crate::digest;
use crate::text;
use crate::torrent::piece;
use crate::types::Sha1Hash;
use vstd::prelude::*;
use vstd::utf8;

verus! {

/// A file of a torrent: its path, as a list of names, and its size.
#[derive(Debug)]
pub struct FileEntry {
    pub path: Vec<String>,
    pub length: usize,
}

/// A run of bytes that a piece and a file have in common.
#[derive(Clone, Copy, Debug)]
pub struct PieceFile {
    pub file_index: usize,
    pub file_offset: usize,
    pub piece_offset: usize,
    pub length: usize,
}

/// A torrent's info dictionary.
#[derive(Debug)]
pub struct Metadata {
    pub name: String,
    pub length: usize,
    pub piece_length: usize,
    pub num_pieces: usize,
    pub pieces: Vec<Sha1Hash>,
    pub files: Vec<FileEntry>,
    pub piece_files: Vec<Vec<PieceFile>>,
}

/// Where file `i` starts when all files are laid out one after the other.
pub open spec fn file_start(files: Seq<FileEntry>, i: int) -> int
    decreases i,
{
    if i <= 0 {
        0
    } else {
        file_start(files, i - 1) + files[i - 1].length
    }
}

/// The number of bytes in piece `p` of a torrent: as in any other, except for
/// the last.
pub open spec fn nth_length(length: int, piece_length: int, p: int) -> int {
    let left = length - p * piece_length;
    if left < piece_length {
        left
    } else {
        piece_length
    }
}

/// A run of piece `p` lies within its piece and its file, at the same place of
/// the torrent in both.
pub open spec fn run_fits(
    files: Seq<FileEntry>,
    length: int,
    piece_length: int,
    p: int,
    run: PieceFile,
) -> bool {
    &&& run.file_index < files.len()
    &&& run.length > 0
    &&& run.file_offset + run.length <= files[run.file_index as int].length
    &&& file_start(files, run.file_index as int) + run.file_offset == p * piece_length
        + run.piece_offset
    &&& run.piece_offset + run.length <= nth_length(length, piece_length, p)
}

/// Where run `i` of a list ends in its piece.
pub open spec fn run_end(runs: Seq<PieceFile>, i: int) -> int {
    if 0 <= i < runs.len() {
        runs[i].piece_offset + runs[i].length
    } else {
        0
    }
}

/// The runs follow each other without a gap from the start of piece `p`, each
/// in a file of its own.
pub open spec fn runs_follow(
    files: Seq<FileEntry>,
    length: int,
    piece_length: int,
    p: int,
    runs: Seq<PieceFile>,
) -> bool {
    &&& forall|i: int|
        0 <= i < runs.len() ==> run_fits(files, length, piece_length, p, #[trigger] runs[i])
    &&& forall|i: int|
        0 <= i < runs.len() ==> (#[trigger] runs[i]).piece_offset == run_end(runs, i - 1)
    &&& forall|i: int, j: int|
        0 <= i < j < runs.len() ==> (#[trigger] runs[i]).file_index < (
        #[trigger] runs[j]).file_index
}

/// The runs follow each other from the start of piece `p` to its end.
pub open spec fn runs_tile(
    files: Seq<FileEntry>,
    length: int,
    piece_length: int,
    p: int,
    runs: Seq<PieceFile>,
) -> bool {
    &&& runs_follow(files, length, piece_length, p, runs)
    &&& run_end(runs, runs.len() - 1) == nth_length(length, piece_length, p)
}

impl Metadata {
    /// The number of bytes in piece `p`.
    pub open spec fn piece_len(self, p: int) -> int {
        nth_length(self.length as int, self.piece_length as int, p)
    }

    /// The runs of piece `p` make up the piece.
    pub open spec fn tiled(self, p: int) -> bool {
        runs_tile(
            self.files@,
            self.length as int,
            self.piece_length as int,
            p,
            self.piece_files@[p]@,
        )
    }

    /// Pieces and files cover the same bytes.
    pub open spec fn wf(self) -> bool {
        &&& self.piece_length > 0
        &&& self.num_pieces == piece::blocks_for(self.piece_length as int, self.length as int)
        &&& self.num_pieces * self.piece_length <= usize::MAX
        &&& self.pieces@.len() == self.num_pieces
        &&& self.piece_files@.len() == self.num_pieces
        &&& file_start(self.files@, self.files@.len() as int) == self.length
        &&& forall|p: int| 0 <= p < self.num_pieces ==> #[trigger] self.tiled(p)
    }

    /// The number of bytes in piece `index`.
    pub fn piece_length(&self, index: usize) -> (r: usize)
        requires
            self.wf(),
            index < self.num_pieces,
        ensures
            r == self.piece_len(index as int),
            0 < r <= self.piece_length,
    {
        proof {
            lemma_piece_bounds(*self, index as int);
        }
        let left = self.length - index * self.piece_length;
        if left < self.piece_length {
            left
        } else {
            self.piece_length
        }
    }
}

/// A piece lies within its torrent.
pub proof fn lemma_piece_bounds(m: Metadata, p: int)
    requires
        m.wf(),
        0 <= p < m.num_pieces,
    ensures
        0 <= p * m.piece_length < m.length,
        0 < m.piece_len(p) <= m.piece_length,
        p * m.piece_length + m.piece_len(p) <= m.length,
        m.length <= m.num_pieces * m.piece_length,
{
    let b = m.piece_length as int;
    let l = m.length as int;
    let n = m.num_pieces as int;
    assert(p <= (l - 1) / b);
    assert(0 <= p * b && p * b <= l - 1) by (nonlinear_arith)
        requires
            0 <= p <= (l - 1) / b,
            b > 0,
            l > 0,
    ;
    assert(l <= n * b) by (nonlinear_arith)
        requires
            n == (l - 1) / b + 1,
            b > 0,
            l > 0,
    ;
}

/// A file's contents.
#[verifier::ext_equal]
pub struct FileModel {
    pub path: Seq<Seq<char>>,
    pub length: nat,
}

/// The contents of a list of files.
pub open spec fn file_models(files: Seq<FileEntry>) -> Seq<FileModel> {
    files.map_values(
        |f: FileEntry| FileModel { path: text::texts(f.path@), length: f.length as nat },
    )
}

/// The sizes of several files together.
pub open spec fn total_length(files: Seq<FileModel>) -> nat
    decreases files.len(),
{
    if files.len() == 0 {
        0
    } else {
        total_length(files.drop_last()) + files.last().length
    }
}

/// The texts that a list of values has to be, or what is wrong with the first
/// that is none.
pub open spec fn texts_of(items: Seq<BencodeModel>, name: Seq<char>) -> Result<
    Seq<Seq<char>>,
    Seq<char>,
>
    decreases items.len(),
{
    if items.len() == 0 {
        Ok(Seq::empty())
    } else {
        match texts_of(items.drop_last(), name) {
            Err(e) => Err(e),
            Ok(texts) => match bencode::as_text(items.last(), name) {
                Err(e) => Err(e),
                Ok(t) => Ok(texts.push(t)),
            },
        }
    }
}

/// The list of texts that a value has to be, or why it is none.
pub open spec fn text_list(v: BencodeModel, name: Seq<char>) -> Result<Seq<Seq<char>>, Seq<char>> {
    match v {
        BencodeModel::List(items) => texts_of(items, name),
        _ => Err(name + " must be a list"@),
    }
}

/// The tiers that a list of values has to be, or what is wrong with the first
/// that is none.
pub open spec fn tiers_of(items: Seq<BencodeModel>) -> Result<Seq<Seq<Seq<char>>>, Seq<char>>
    decreases items.len(),
{
    if items.len() == 0 {
        Ok(Seq::empty())
    } else {
        match tiers_of(items.drop_last()) {
            Err(e) => Err(e),
            Ok(tiers) => match text_list(items.last(), "announce-list"@) {
                Err(e) => Err(e),
                Ok(t) => Ok(tiers.push(t)),
            },
        }
    }
}

/// A torrent's trackers in tiers: the list of tiers, else the one tracker, else
/// none.
pub open spec fn announces_of(v: BencodeModel) -> Result<Seq<Seq<Seq<char>>>, Seq<char>> {
    match bencode::entry(v, "announce-list"@) {
        Some(BencodeModel::List(items)) => tiers_of(items),
        Some(_) => Err("announce-list must be a list"@),
        None => match bencode::entry(v, "announce"@) {
            Some(found) => match bencode::as_text(found, "announce"@) {
                Ok(url) => Ok(seq![seq![url]]),
                Err(e) => Err(e),
            },
            None => Ok(Seq::empty()),
        },
    }
}

/// The size of a file, which has to fit this machine.
pub open spec fn size_under(v: BencodeModel, key: Seq<char>) -> Result<nat, Seq<char>> {
    match bencode::required_entry(v, key) {
        Err(e) => Err(e),
        Ok(found) => match bencode::as_unsigned(found, key) {
            Err(e) => Err(e),
            Ok(n) => if n <= usize::MAX {
                Ok(n as nat)
            } else {
                Err("Torrent is too large"@)
            },
        },
    }
}

/// A file of a torrent with several, below the torrent's directory.
pub open spec fn file_of(v: BencodeModel, name: Seq<char>) -> Result<FileModel, Seq<char>> {
    match size_under(v, "length"@) {
        Err(e) => Err(e),
        Ok(length) => match bencode::required_entry(v, "path"@) {
            Err(e) => Err(e),
            Ok(found) => match text_list(found, "path"@) {
                Err(e) => Err(e),
                Ok(path) => Ok(FileModel { path: seq![name] + path, length }),
            },
        },
    }
}

/// The files that a list of values has to be, or what is wrong with the first
/// that is none.
pub open spec fn files_of(items: Seq<BencodeModel>, name: Seq<char>) -> Result<
    Seq<FileModel>,
    Seq<char>,
>
    decreases items.len(),
{
    if items.len() == 0 {
        Ok(Seq::empty())
    } else {
        match files_of(items.drop_last(), name) {
            Err(e) => Err(e),
            Ok(files) => match file_of(items.last(), name) {
                Err(e) => Err(e),
                Ok(f) => Ok(files.push(f)),
            },
        }
    }
}

/// A torrent's files: those in the list, or a single one.
pub open spec fn listed_files(v: BencodeModel, name: Seq<char>) -> Result<
    Seq<FileModel>,
    Seq<char>,
> {
    match bencode::entry(v, "files"@) {
        Some(BencodeModel::List(items)) => files_of(items, name),
        Some(_) => Err("files must be a list"@),
        None => match size_under(v, "length"@) {
            Ok(length) => Ok(seq![FileModel { path: seq![name], length }]),
            Err(e) => Err(e),
        },
    }
}

/// What an info dictionary says.
#[verifier::ext_equal]
pub struct InfoModel {
    pub name: Seq<char>,
    pub piece_length: nat,
    pub pieces: Seq<u8>,
    pub files: Seq<FileModel>,
}

/// What is wrong with the sizes in an info dictionary, if anything.
pub open spec fn size_error(info: InfoModel) -> Option<Seq<char>> {
    let total = total_length(info.files);
    let n = piece::blocks_for(info.piece_length as int, total as int);
    if info.piece_length == 0 {
        Some("Pieces must not be empty"@)
    } else if total > usize::MAX || n * info.piece_length > usize::MAX {
        Some("Torrent is too large"@)
    } else if info.pieces.len() != 20 * n {
        Some("Pieces do not match the length"@)
    } else {
        None
    }
}

/// What an info dictionary says, or why it is none.
pub open spec fn info_of(v: BencodeModel) -> Result<InfoModel, Seq<char>> {
    match bencode::required_entry(v, "name"@) {
        Err(e) => Err(e),
        Ok(found) => match bencode::as_text(found, "name"@) {
            Err(e) => Err(e),
            Ok(name) => match size_under(v, "piece length"@) {
                Err(e) => Err(e),
                Ok(piece_length) => match bencode::required_entry(v, "pieces"@) {
                    Err(e) => Err(e),
                    Ok(found) => match bencode::as_byte_string(found, "pieces"@) {
                        Err(e) => Err(e),
                        Ok(pieces) => match listed_files(v, name) {
                            Err(e) => Err(e),
                            Ok(files) => {
                                let info = InfoModel { name, piece_length, pieces, files };
                                match size_error(info) {
                                    Some(e) => Err(e),
                                    None => Ok(info),
                                }
                            },
                        },
                    },
                },
            },
        },
    }
}

/// What the bytes of an info dictionary say, or why they say nothing.
pub open spec fn parse_info(s: Seq<u8>) -> Result<InfoModel, Seq<char>> {
    match bencode::value_at(s, 0) {
        Parsed::Value(v, _) => info_of(v),
        Parsed::End => Err("Unable to find root dictionary"@),
        Parsed::Error(e) => Err(e),
    }
}

/// The metadata is what an info dictionary says.
pub open spec fn says(m: Metadata, info: InfoModel) -> bool {
    &&& m.wf()
    &&& m.name@ == info.name
    &&& m.piece_length == info.piece_length
    &&& file_models(m.files@) == info.files
    &&& m.num_pieces * 20 == info.pieces.len()
    &&& forall|p: int|
        0 <= p < m.num_pieces ==> (#[trigger] m.pieces@[p]).bytes@ == info.pieces.subrange(
            20 * p,
            20 * p + 20,
        )
}

/// Where a file starts, by the sizes of those before it.
proof fn lemma_file_start(files: Seq<FileEntry>, i: int)
    requires
        0 <= i <= files.len(),
    ensures
        file_start(files, i) == total_length(file_models(files).take(i)),
        0 <= file_start(files, i),
    decreases i,
{
    let models = file_models(files);
    if i > 0 {
        lemma_file_start(files, i - 1);
        assert(models.take(i).drop_last() =~= models.take(i - 1));
    } else {
        assert(models.take(0) =~= Seq::empty());
    }
}

/// Files start later, the later they come.
proof fn lemma_file_start_monotone(files: Seq<FileEntry>, i: int, j: int)
    requires
        0 <= i <= j <= files.len(),
    ensures
        file_start(files, i) <= file_start(files, j),
    decreases j - i,
{
    if i < j {
        lemma_file_start_monotone(files, i, j - 1);
    }
}

/// Where the first texts have an error, all have the same.
proof fn lemma_texts_error(items: Seq<BencodeModel>, name: Seq<char>, n: int)
    requires
        0 <= n <= items.len(),
        texts_of(items.take(n), name) is Err,
    ensures
        texts_of(items, name) == texts_of(items.take(n), name),
    decreases items.len(),
{
    if n < items.len() {
        assert(items.drop_last().take(n) =~= items.take(n));
        lemma_texts_error(items.drop_last(), name, n);
    } else {
        assert(items.take(n) =~= items);
    }
}

proof fn lemma_tiers_error(items: Seq<BencodeModel>, n: int)
    requires
        0 <= n <= items.len(),
        tiers_of(items.take(n)) is Err,
    ensures
        tiers_of(items) == tiers_of(items.take(n)),
    decreases items.len(),
{
    if n < items.len() {
        assert(items.drop_last().take(n) =~= items.take(n));
        lemma_tiers_error(items.drop_last(), n);
    } else {
        assert(items.take(n) =~= items);
    }
}

proof fn lemma_files_error(items: Seq<BencodeModel>, name: Seq<char>, n: int)
    requires
        0 <= n <= items.len(),
        files_of(items.take(n), name) is Err,
    ensures
        files_of(items, name) == files_of(items.take(n), name),
    decreases items.len(),
{
    if n < items.len() {
        assert(items.drop_last().take(n) =~= items.take(n));
        lemma_files_error(items.drop_last(), name, n);
    } else {
        assert(items.take(n) =~= items);
    }
}

/// Reads a list of texts.
fn read_texts(value: &BencodeValue, name: &str) -> (r: Result<Vec<String>, String>)
    ensures
        match r {
            Ok(list) => text_list(value.model(), name@) == Ok::<_, Seq<char>>(text::texts(list@)),
            Err(e) => text_list(value.model(), name@) == Err::<Seq<Seq<char>>, _>(e@),
        },
{
    match value {
        BencodeValue::List(items) => {
            let ghost models = bencode::item_models(items@);
            let mut r: Vec<String> = Vec::new();
            let mut i: usize = 0;
            proof {
                bencode::lemma_item_models(items@);
                assert(models.take(0) =~= Seq::empty());
                assert(text::texts(r@) =~= Seq::empty());
            }
            while i < items.len()
                invariant
                    i <= items@.len(),
                    models.len() == items@.len(),
                    forall|j: int|
                        0 <= j < items@.len() ==> #[trigger] models[j] == items@[j].model(),
                    value.model() == BencodeModel::List(models),
                    texts_of(models.take(i as int), name@) == Ok::<_, Seq<char>>(text::texts(r@)),
                decreases items@.len() - i,
            {
                let ghost seen = models.take(i as int + 1);
                assert(seen.drop_last() =~= models.take(i as int));
                assert(seen.last() == models[i as int]);
                match items[i].string(name) {
                    Ok(s) => {
                        let ghost before = text::texts(r@);
                        let ghost t = s@;
                        r.push(s);
                        assert(text::texts(r@) =~= before.push(t));
                    },
                    Err(e) => {
                        proof {
                            lemma_texts_error(models, name@, i as int + 1);
                        }
                        return Err(e);
                    },
                }
                i += 1;
            }
            assert(models.take(i as int) =~= models);
            Ok(r)
        },
        _ => {
            let mut e = name.to_owned();
            e.append(" must be a list");
            Err(e)
        },
    }
}

/// The contents of a list of tiers.
pub open spec fn tier_views(tiers: Seq<Vec<String>>) -> Seq<Seq<Seq<char>>> {
    tiers.map_values(|t: Vec<String>| text::texts(t@))
}

/// Reads a list of tiers.
fn read_tiers(items: &Vec<BencodeValue>) -> (r: Result<Vec<Vec<String>>, String>)
    ensures
        match r {
            Ok(tiers) => tiers_of(bencode::item_models(items@)) == Ok::<_, Seq<char>>(
                tier_views(tiers@),
            ),
            Err(e) => tiers_of(bencode::item_models(items@)) == Err::<Seq<Seq<Seq<char>>>, _>(e@),
        },
{
    let ghost models = bencode::item_models(items@);
    let mut r: Vec<Vec<String>> = Vec::new();
    let mut i: usize = 0;
    proof {
        bencode::lemma_item_models(items@);
        assert(models.take(0) =~= Seq::empty());
        assert(tier_views(r@) =~= Seq::empty());
    }
    while i < items.len()
        invariant
            i <= items@.len(),
            models == bencode::item_models(items@),
            models.len() == items@.len(),
            forall|j: int| 0 <= j < items@.len() ==> #[trigger] models[j] == items@[j].model(),
            tiers_of(models.take(i as int)) == Ok::<_, Seq<char>>(tier_views(r@)),
        decreases items@.len() - i,
    {
        let ghost seen = models.take(i as int + 1);
        assert(seen.drop_last() =~= models.take(i as int));
        assert(seen.last() == models[i as int]);
        match read_texts(&items[i], "announce-list") {
            Ok(tier) => {
                let ghost before = tier_views(r@);
                let ghost t = text::texts(tier@);
                r.push(tier);
                assert(tier_views(r@) =~= before.push(t));
            },
            Err(e) => {
                proof {
                    lemma_tiers_error(models, i as int + 1);
                }
                return Err(e);
            },
        }
        i += 1;
    }
    assert(models.take(i as int) =~= models);
    Ok(r)
}

/// Reads a size.
fn read_size(value: &BencodeValue, key: &str) -> (r: Result<usize, String>)
    requires
        value.wf(),
    ensures
        match r {
            Ok(n) => size_under(value.model(), key@) == Ok::<_, Seq<char>>(n as nat),
            Err(e) => size_under(value.model(), key@) == Err::<nat, _>(e@),
        },
{
    match value.required(key) {
        Err(e) => Err(e),
        Ok(found) => match found.unsigned(key) {
            Err(e) => Err(e),
            Ok(n) => if n <= usize::MAX as u64 {
                Ok(n as usize)
            } else {
                Err("Torrent is too large".to_owned())
            },
        },
    }
}

/// Reads a file of a torrent with several.
fn read_file(value: &BencodeValue, name: &String) -> (r: Result<FileEntry, String>)
    requires
        value.wf(),
    ensures
        match r {
            Ok(f) => file_of(value.model(), name@) == Ok::<_, Seq<char>>(
                FileModel { path: text::texts(f.path@), length: f.length as nat },
            ),
            Err(e) => file_of(value.model(), name@) == Err::<FileModel, _>(e@),
        },
{
    let length = match read_size(value, "length") {
        Ok(length) => length,
        Err(e) => {
            return Err(e);
        },
    };
    let found = match value.required("path") {
        Ok(found) => found,
        Err(e) => {
            return Err(e);
        },
    };
    match read_texts(found, "path") {
        Ok(names) => {
            let ghost rest = text::texts(names@);
            let mut path = names;
            path.insert(0, name.clone());
            assert(text::texts(path@) =~= seq![name@] + rest);
            Ok(FileEntry { path, length })
        },
        Err(e) => Err(e),
    }
}

/// A list's items are sound where the list is.
proof fn lemma_list_item_sound(value: BencodeValue, i: int)
    requires
        value.wf(),
        value is List,
        0 <= i < value->List_0@.len(),
    ensures
        value->List_0@[i].wf(),
{
    let items = value->List_0@;
    bencode::lemma_item_models(items);
    bencode::lemma_sound_item(bencode::item_models(items), i);
}

/// Reads a torrent's files.
fn read_files(value: &BencodeValue, name: &String) -> (r: Result<Vec<FileEntry>, String>)
    requires
        value.wf(),
    ensures
        match r {
            Ok(files) => listed_files(value.model(), name@) == Ok::<_, Seq<char>>(
                file_models(files@),
            ),
            Err(e) => listed_files(value.model(), name@) == Err::<Seq<FileModel>, _>(e@),
        },
{
    match value.get("files") {
        None => {
            let length = match read_size(value, "length") {
                Ok(length) => length,
                Err(e) => {
                    return Err(e);
                },
            };
            let mut path: Vec<String> = Vec::new();
            path.push(name.clone());
            let file = FileEntry { path, length };
            let mut files: Vec<FileEntry> = Vec::new();
            assert(text::texts(file.path@) =~= seq![name@]);
            files.push(file);
            assert(file_models(files@) =~= seq![
                FileModel { path: seq![name@], length: length as nat },
            ]);
            Ok(files)
        },
        Some(list) => match list {
            BencodeValue::List(items) => {
                let ghost models = bencode::item_models(items@);
                let mut r: Vec<FileEntry> = Vec::new();
                let mut i: usize = 0;
                proof {
                    bencode::lemma_item_models(items@);
                    assert(models.take(0) =~= Seq::empty());
                    assert(file_models(r@) =~= Seq::empty());
                    assert(list.model() == BencodeModel::List(models));
                }
                while i < items.len()
                    invariant
                        i <= items@.len(),
                        models.len() == items@.len(),
                        list.wf(),
                        *list == BencodeValue::List(*items),
                        forall|j: int|
                            0 <= j < items@.len() ==> #[trigger] models[j] == items@[j].model(),
                        bencode::entry(value.model(), "files"@) == Some(BencodeModel::List(models)),
                        files_of(models.take(i as int), name@) == Ok::<_, Seq<char>>(
                            file_models(r@),
                        ),
                    decreases items@.len() - i,
                {
                    let ghost seen = models.take(i as int + 1);
                    proof {
                        assert(seen.drop_last() =~= models.take(i as int));
                        assert(seen.last() == models[i as int]);
                        lemma_list_item_sound(*list, i as int);
                    }
                    match read_file(&items[i], name) {
                        Ok(file) => {
                            let ghost before = file_models(r@);
                            let ghost f = FileModel {
                                path: text::texts(file.path@),
                                length: file.length as nat,
                            };
                            r.push(file);
                            assert(file_models(r@) =~= before.push(f));
                        },
                        Err(e) => {
                            proof {
                                lemma_files_error(models, name@, i as int + 1);
                            }
                            return Err(e);
                        },
                    }
                    i += 1;
                }
                assert(models.take(i as int) =~= models);
                Ok(r)
            },
            _ => Err("files must be a list".to_owned()),
        },
    }
}

/// Lays the pieces out over the files.
fn lay_out(files: &Vec<FileEntry>, length: usize, piece_length: usize, num_pieces: usize) -> (r: Vec<
    Vec<PieceFile>,
>)
    requires
        piece_length > 0,
        num_pieces == piece::blocks_for(piece_length as int, length as int),
        num_pieces * piece_length <= usize::MAX,
        file_start(files@, files@.len() as int) == length,
    ensures
        r@.len() == num_pieces,
        forall|p: int|
            0 <= p < num_pieces ==> runs_tile(
                files@,
                length as int,
                piece_length as int,
                p,
                (#[trigger] r@[p])@,
            ),
{
    let num_files = files.len();
    let mut r: Vec<Vec<PieceFile>> = Vec::new();
    let mut file: usize = 0;
    let mut offset: usize = 0;
    let mut start: usize = 0;
    let mut p: usize = 0;
    while p < num_pieces
        invariant
            p <= num_pieces,
            piece_length > 0,
            num_pieces == piece::blocks_for(piece_length as int, length as int),
            num_pieces * piece_length <= usize::MAX,
            file_start(files@, files@.len() as int) == length,
            num_files == files@.len(),
            file <= files@.len(),
            file < files@.len() ==> offset <= files@[file as int].length,
            file == files@.len() ==> offset == 0,
            p < num_pieces ==> start == p * piece_length && file_start(files@, file as int)
                + offset == start,
            r@.len() == p,
            forall|q: int|
                0 <= q < p ==> runs_tile(
                    files@,
                    length as int,
                    piece_length as int,
                    q,
                    (#[trigger] r@[q])@,
                ),
        decreases num_pieces - p,
    {
        proof {
            lemma_piece_start(length as int, piece_length as int, p as int);
        }
        let size = if length - start < piece_length {
            length - start
        } else {
            piece_length
        };
        let mut runs: Vec<PieceFile> = Vec::new();
        let mut done: usize = 0;
        while done < size
            invariant
                done <= size,
                start + size <= length,
                size == nth_length(length as int, piece_length as int, p as int),
                start == p * piece_length,
                file_start(files@, files@.len() as int) == length,
                num_files == files@.len(),
                file <= files@.len(),
                file < files@.len() ==> offset <= files@[file as int].length,
                file == files@.len() ==> offset == 0,
                file_start(files@, file as int) + offset == start + done,
                runs_follow(files@, length as int, piece_length as int, p as int, runs@),
                run_end(runs@, runs@.len() - 1) == done,
                forall|i: int|
                    0 <= i < runs@.len() ==> (#[trigger] runs@[i]).file_index < file
                        || runs@[i].file_index == file && (done == size || offset
                        == files@[file as int].length),
            decreases size - done, files@.len() - file,
        {
            proof {
                if file == files@.len() {
                    assert(file_start(files@, file as int) == length);
                    assert(false);
                }
                lemma_file_start_monotone(files@, file as int + 1, files@.len() as int);
            }
            let left = files[file].length - offset;
            if left == 0 {
                file += 1;
                offset = 0;
            } else {
                let n = if left < size - done {
                    left
                } else {
                    size - done
                };
                let run = PieceFile {
                    file_index: file,
                    file_offset: offset,
                    piece_offset: done,
                    length: n,
                };
                let ghost before = runs@;
                runs.push(run);
                proof {
                    assert forall|i: int| 0 <= i < runs@.len() implies (
                    #[trigger] runs@[i]).piece_offset == run_end(runs@, i - 1) by {
                        if i < before.len() {
                            assert(before[i].piece_offset == run_end(before, i - 1));
                        }
                    }
                    assert forall|i: int, j: int| 0 <= i < j < runs@.len() implies (
                    #[trigger] runs@[i]).file_index < (#[trigger] runs@[j]).file_index by {
                        assert(runs@[i] == before[i]);
                        if j < before.len() {
                            assert(runs@[j] == before[j]);
                        }
                    }
                    assert forall|i: int| 0 <= i < runs@.len() implies run_fits(
                        files@,
                        length as int,
                        piece_length as int,
                        p as int,
                        #[trigger] runs@[i],
                    ) by {
                        if i < before.len() {
                            assert(runs@[i] == before[i]);
                        }
                    }
                }
                offset += n;
                done += n;
            }
        }
        r.push(runs);
        proof {
            if p + 1 < num_pieces {
                lemma_piece_start(length as int, piece_length as int, p as int + 1);
                assert((p + 1) * piece_length == p * piece_length + piece_length)
                    by (nonlinear_arith);
            }
        }
        p += 1;
        if p < num_pieces {
            start += piece_length;
        }
    }
    r
}

/// A piece starts within the torrent, and is not empty.
proof fn lemma_piece_start(length: int, piece_length: int, p: int)
    requires
        piece_length > 0,
        0 <= p < piece::blocks_for(piece_length, length),
    ensures
        0 <= p * piece_length < length,
        0 < nth_length(length, piece_length, p) <= piece_length,
        p * piece_length + nth_length(length, piece_length, p) <= length,
{
    assert(0 <= p * piece_length && p * piece_length <= length - 1) by (nonlinear_arith)
        requires
            0 <= p <= (length - 1) / piece_length,
            piece_length > 0,
            length > 0,
    ;
}

/// The sizes of several files together, unless they are too much.
fn sum_lengths(files: &Vec<FileEntry>) -> (r: Option<usize>)
    ensures
        match r {
            Some(n) => n == total_length(file_models(files@)) && n == file_start(
                files@,
                files@.len() as int,
            ),
            None => total_length(file_models(files@)) > usize::MAX,
        },
{
    let ghost models = file_models(files@);
    let mut n: usize = 0;
    let mut i: usize = 0;
    assert(models.take(0) =~= Seq::empty());
    while i < files.len()
        invariant
            i <= files@.len(),
            models == file_models(files@),
            n == total_length(models.take(i as int)),
        decreases files@.len() - i,
    {
        proof {
            assert(models.take(i as int + 1).drop_last() =~= models.take(i as int));
            lemma_total_prefix(models, i as int + 1);
        }
        if files[i].length > usize::MAX - n {
            return None;
        }
        n += files[i].length;
        i += 1;
    }
    proof {
        assert(models.take(i as int) =~= models);
        lemma_file_start(files@, files@.len() as int);
    }
    Some(n)
}

/// Part of the files are together no larger than all.
proof fn lemma_total_prefix(files: Seq<FileModel>, n: int)
    requires
        0 <= n <= files.len(),
    ensures
        total_length(files.take(n)) <= total_length(files),
    decreases files.len(),
{
    if n < files.len() {
        lemma_total_prefix(files.drop_last(), n);
        assert(files.drop_last().take(n) =~= files.take(n));
    } else {
        assert(files.take(n) =~= files);
    }
}

/// The digests of the pieces, twenty bytes each.
fn split_hashes(pieces: &Vec<u8>, n: usize) -> (r: Vec<Sha1Hash>)
    requires
        pieces@.len() == 20 * n,
    ensures
        r@.len() == n,
        forall|p: int|
            0 <= p < n ==> (#[trigger] r@[p]).bytes@ == pieces@.subrange(20 * p, 20 * p + 20),
{
    let total = pieces.len();
    let mut r: Vec<Sha1Hash> = Vec::new();
    let mut p: usize = 0;
    while p < n
        invariant
            p <= n,
            total == 20 * n,
            total == pieces@.len(),
            r@.len() == p,
            forall|q: int|
                0 <= q < p ==> (#[trigger] r@[q]).bytes@ == pieces@.subrange(20 * q, 20 * q + 20),
        decreases n - p,
    {
        let mut hash: [u8; 20] = [0u8;20];
        let mut i: usize = 0;
        while i < 20
            invariant
                i <= 20,
                p < n,
                total == 20 * n,
                total == pieces@.len(),
                forall|j: int| 0 <= j < i ==> hash@[j] == pieces@[20 * p + j],
            decreases 20 - i,
        {
            hash[i] = pieces[20 * p + i];
            i += 1;
        }
        assert(hash@ =~= pieces@.subrange(20 * p, 20 * p + 20));
        r.push(Sha1Hash { bytes: hash });
        p += 1;
    }
    r
}

impl Metadata {
    /// Reads an info dictionary.
    pub fn from_bytes(encoded: &[u8]) -> (r: Result<Metadata, String>)
        ensures
            match r {
                Ok(m) => parse_info(encoded@) matches Ok(info) && says(m, info),
                Err(e) => parse_info(encoded@) == Err::<InfoModel, _>(e@),
            },
    {
        let root = match BencodeValue::from_bytes(encoded) {
            Ok((Some(root), _)) => root,
            Ok((None, _)) => {
                return Err("Unable to find root dictionary".to_owned());
            },
            Err(e) => {
                return Err(e);
            },
        };
        let name = match root.required("name") {
            Ok(found) => match found.string("name") {
                Ok(name) => name,
                Err(e) => {
                    return Err(e);
                },
            },
            Err(e) => {
                return Err(e);
            },
        };
        let piece_length = match read_size(&root, "piece length") {
            Ok(n) => n,
            Err(e) => {
                return Err(e);
            },
        };
        let hashes = match root.required("pieces") {
            Ok(found) => match found.byte_string("pieces") {
                Ok(hashes) => hashes,
                Err(e) => {
                    return Err(e);
                },
            },
            Err(e) => {
                return Err(e);
            },
        };
        let files = match read_files(&root, &name) {
            Ok(files) => files,
            Err(e) => {
                return Err(e);
            },
        };
        let ghost info = InfoModel {
            name: name@,
            piece_length: piece_length as nat,
            pieces: hashes@,
            files: file_models(files@),
        };
        if piece_length == 0 {
            return Err("Pieces must not be empty".to_owned());
        }
        let length = match sum_lengths(&files) {
            Some(length) => length,
            None => {
                return Err("Torrent is too large".to_owned());
            },
        };
        let num_pieces: usize = if length == 0 {
            0
        } else {
            assert(0 <= (length - 1) / (piece_length as int) <= length - 1) by (nonlinear_arith)
                requires
                    length > 0,
                    piece_length > 0,
            ;
            (length - 1) / piece_length + 1
        };
        if num_pieces.checked_mul(piece_length).is_none() {
            return Err("Torrent is too large".to_owned());
        }
        if hashes.len() % 20 != 0 || hashes.len() / 20 != num_pieces {
            return Err("Pieces do not match the length".to_owned());
        }
        let pieces = split_hashes(hashes, num_pieces);
        let piece_files = lay_out(&files, length, piece_length, num_pieces);
        let m = Metadata { name, length, piece_length, num_pieces, pieces, files, piece_files };
        proof {
            assert forall|p: int| 0 <= p < m.num_pieces implies #[trigger] m.tiled(p) by {
                assert(runs_tile(
                    m.files@,
                    length as int,
                    piece_length as int,
                    p,
                    m.piece_files@[p]@,
                ));
            }
            assert(says(m, info));
        }
        Ok(m)
    }
}

/// A torrent's identity and its trackers, in tiers.
#[derive(Debug)]
pub struct Metainfo {
    pub info_hash: Sha1Hash,
    pub announces: Vec<Vec<String>>,
}

/// Where the value under `info` starts and ends in the dictionary whose entries
/// start at `pos`; of several, the last.
pub open spec fn info_span(s: Seq<u8>, pos: int, found: Option<(int, int)>) -> Option<(int, int)>
    decreases s.len() - pos,
{
    if pos < 0 || pos >= s.len() {
        found
    } else {
        match bencode::bytes_at(s, pos) {
            ParsedBytes::Error(_) => found,
            ParsedBytes::Bytes(key, middle) => match bencode::value_at(s, middle) {
                Parsed::Value(_, end) => if pos < end <= s.len() {
                    info_span(
                        s,
                        end,
                        if key == utf8::encode_utf8("info"@) {
                            Some((middle, end))
                        } else {
                            found
                        },
                    )
                } else {
                    found
                },
                _ => found,
            },
        }
    }
}

/// A torrent file's trackers and the bytes of its info dictionary, or why it
/// is none.
pub open spec fn parse_metainfo(s: Seq<u8>) -> Result<
    (Seq<Seq<Seq<char>>>, Seq<u8>),
    Seq<char>,
> {
    match bencode::value_at(s, 0) {
        Parsed::Value(v, _) => match announces_of(v) {
            Err(e) => Err(e),
            Ok(announces) => match info_span(s, 1, None) {
                Some((from, to)) if v is Dictionary => Ok((announces, s.subrange(from, to))),
                _ => Err("Missing key info"@),
            },
        },
        Parsed::End => Err("Unable to find root dictionary"@),
        Parsed::Error(e) => Err(e),
    }
}

/// Whether a byte string is a key.
fn is_key(bytes: &Vec<u8>, key: &str) -> (r: bool)
    ensures
        r == (bytes@ == utf8::encode_utf8(key@)),
{
    let wanted = key.as_bytes();
    if bytes.len() != wanted.len() {
        return false;
    }
    let mut i: usize = 0;
    while i < bytes.len()
        invariant
            i <= bytes@.len(),
            bytes@.len() == wanted@.len(),
            wanted@ == utf8::encode_utf8(key@),
            forall|j: int| 0 <= j < i ==> bytes@[j] == wanted@[j],
        decreases bytes@.len() - i,
    {
        if bytes[i] != wanted[i] {
            return false;
        }
        i += 1;
    }
    assert(bytes@ =~= wanted@);
    true
}

/// Finds the value under `info`.
fn find_info(encoded: &[u8]) -> (r: Option<(usize, usize)>)
    requires
        encoded@.len() > 0,
    ensures
        match r {
            Some((from, to)) => info_span(encoded@, 1, None) == Some((from as int, to as int))
                && from <= to <= encoded@.len(),
            None => info_span(encoded@, 1, None) is None,
        },
{
    let mut found: Option<(usize, usize)> = None;
    let mut pos: usize = 1;
    let ghost mut shown: Option<(int, int)> = None;
    loop
        invariant
            1 <= pos <= encoded@.len(),
            match found {
                Some((from, to)) => shown == Some((from as int, to as int)) && from <= to
                    <= encoded@.len(),
                None => shown is None,
            },
            info_span(encoded@, 1, None) == info_span(encoded@, pos as int, shown),
        decreases encoded@.len() - pos,
    {
        if pos >= encoded.len() {
            return found;
        }
        match bencode::decode_bytes(encoded, pos) {
            Err(_) => {
                return found;
            },
            Ok((key, middle)) => {
                proof {
                    bencode::lemma_value_end(encoded@, middle as int);
                }
                match bencode::value_end(encoded, middle) {
                    None => {
                        return found;
                    },
                    Some(end) => {
                        if is_key(&key, "info") {
                            found = Some((middle, end));
                            proof {
                                shown = Some((middle as int, end as int));
                            }
                        }
                        pos = end;
                    },
                }
            },
        }
    }
}

impl Metainfo {
    /// A torrent that is known by its identity and some trackers.
    pub fn from_magnet(info_hash: Sha1Hash, trackers: Vec<String>) -> (r: Metainfo)
        ensures
            r.info_hash == info_hash,
            tier_views(r.announces@) == seq![text::texts(trackers@)],
    {
        let mut announces: Vec<Vec<String>> = Vec::new();
        announces.push(trackers);
        assert(tier_views(announces@) =~= seq![text::texts(trackers@)]);
        Metainfo { info_hash, announces }
    }

    /// Reads a torrent file, and gives the bytes of its info dictionary too.
    pub fn from_bytes(encoded: &[u8]) -> (r: Result<(Metainfo, Vec<u8>), String>)
        ensures
            match r {
                Ok((m, info)) => parse_metainfo(encoded@) == Ok::<_, Seq<char>>(
                    (tier_views(m.announces@), info@),
                ) && m.info_hash.bytes@ == digest::sha1_digest(info@),
                Err(e) => parse_metainfo(encoded@) == Err::<(Seq<Seq<Seq<char>>>, Seq<u8>), _>(e@),
            },
    {
        let root = match BencodeValue::from_bytes(encoded) {
            Ok((Some(root), _)) => root,
            Ok((None, _)) => {
                return Err("Unable to find root dictionary".to_owned());
            },
            Err(e) => {
                return Err(e);
            },
        };
        let announces = match read_announces(&root) {
            Ok(announces) => announces,
            Err(e) => {
                return Err(e);
            },
        };
        if root.as_dict().is_none() {
            return Err("Missing key info".to_owned());
        }
        match find_info(encoded) {
            Some((from, to)) => {
                let info = bytes::copy_range(encoded, from, to);
                let info_hash = digest::sha1(info.as_slice());
                Ok((Metainfo { info_hash, announces }, info))
            },
            None => Err("Missing key info".to_owned()),
        }
    }
}

/// Reads a torrent's trackers.
fn read_announces(root: &BencodeValue) -> (r: Result<Vec<Vec<String>>, String>)
    requires
        root.wf(),
    ensures
        match r {
            Ok(tiers) => announces_of(root.model()) == Ok::<_, Seq<char>>(tier_views(tiers@)),
            Err(e) => announces_of(root.model()) == Err::<Seq<Seq<Seq<char>>>, _>(e@),
        },
{
    match root.get("announce-list") {
        Some(list) => match list {
            BencodeValue::List(items) => {
                assert(list.model() == BencodeModel::List(bencode::item_models(items@)));
                read_tiers(items)
            },
            _ => Err("announce-list must be a list".to_owned()),
        },
        None => match root.get("announce") {
            Some(found) => match found.string("announce") {
                Ok(url) => {
                    let ghost t = url@;
                    let mut tier: Vec<String> = Vec::new();
                    tier.push(url);
                    let mut tiers: Vec<Vec<String>> = Vec::new();
                    assert(text::texts(tier@) =~= seq![t]);
                    tiers.push(tier);
                    assert(tier_views(tiers@) =~= seq![seq![t]]);
                    Ok(tiers)
                },
                Err(e) => Err(e),
            },
            None => {
                let tiers: Vec<Vec<String>> = Vec::new();
                assert(tier_views(tiers@) =~= Seq::empty());
                Ok(tiers)
            },
        },
    }
}

/// Every byte of a piece lies in one of its runs, and in no other.
pub proof fn law_runs_cover_piece(m: Metadata, p: int, i: int)
    requires
        m.wf(),
        0 <= p < m.num_pieces,
        0 <= i < m.piece_len(p),
    ensures
        exists|k: int| #[trigger] run_holds(m.piece_files@[p]@, k, i),
        forall|j: int, k: int| #[trigger]
            run_holds(m.piece_files@[p]@, j, i) && #[trigger] run_holds(m.piece_files@[p]@, k, i)
                ==> j == k,
{
    let runs = m.piece_files@[p]@;
    assert(m.tiled(p));
    lemma_run_at(m, p, i, runs.len() as int);
    assert forall|j: int, k: int| #[trigger]
        run_holds(runs, j, i) && #[trigger] run_holds(runs, k, i) implies j == k by {
        if j < k {
            lemma_runs_apart(m, p, j, k);
        } else if k < j {
            lemma_runs_apart(m, p, k, j);
        }
    }
}

/// Byte `i` of a piece lies in run `k`.
pub open spec fn run_holds(runs: Seq<PieceFile>, k: int, i: int) -> bool {
    0 <= k < runs.len() && runs[k].piece_offset <= i < runs[k].piece_offset + runs[k].length
}

proof fn lemma_run_at(m: Metadata, p: int, i: int, n: int)
    requires
        m.wf(),
        0 <= p < m.num_pieces,
        0 <= n <= m.piece_files@[p]@.len(),
        0 <= i < run_end(m.piece_files@[p]@, n - 1),
    ensures
        exists|k: int| #[trigger] run_holds(m.piece_files@[p]@, k, i),
    decreases n,
{
    let runs = m.piece_files@[p]@;
    assert(m.tiled(p));
    if n > 0 {
        assert(runs[n - 1].piece_offset == run_end(runs, n - 2));
        if i < runs[n - 1].piece_offset {
            lemma_run_at(m, p, i, n - 1);
        } else {
            assert(run_holds(runs, n - 1, i));
        }
    }
}

proof fn lemma_runs_apart(m: Metadata, p: int, j: int, k: int)
    requires
        m.wf(),
        0 <= p < m.num_pieces,
        0 <= j < k < m.piece_files@[p]@.len(),
    ensures
        run_end(m.piece_files@[p]@, j) <= m.piece_files@[p]@[k].piece_offset,
    decreases k - j,
{
    let runs = m.piece_files@[p]@;
    assert(m.tiled(p));
    assert(runs[k].piece_offset == run_end(runs, k - 1));
    if j < k - 1 {
        lemma_runs_apart(m, p, j, k - 1);
        assert(runs[k - 1].length > 0) by {
            assert(run_fits(
                m.files@,
                m.length as int,
                m.piece_length as int,
                p,
                runs[k - 1],
            ));
        }
    }
}

/// What the first `n` pieces hold together.
pub open spec fn held_by(m: Metadata, n: int) -> int
    decreases n,
{
    if n <= 0 {
        0
    } else {
        held_by(m, n - 1) + m.piece_len(n - 1)
    }
}

/// The pieces of a torrent hold all of it, one after the other: each but the
/// last has the same length, and the last what is left.
pub proof fn law_pieces_hold_torrent(m: Metadata, p: int)
    requires
        m.wf(),
        0 <= p < m.num_pieces,
    ensures
        held_by(m, m.num_pieces as int) == m.length,
        held_by(m, p) == p * m.piece_length,
        p + 1 < m.num_pieces ==> m.piece_len(p) == m.piece_length,
        0 < m.piece_len(p) <= m.piece_length,
{
    let n = m.num_pieces as int;
    let pl = m.piece_length as int;
    lemma_held_by(m, n - 1);
    lemma_held_by(m, p);
    lemma_piece_bounds(m, n - 1);
    lemma_piece_bounds(m, p);
    assert(n * pl == (n - 1) * pl + pl) by (nonlinear_arith);
    if p + 1 < n {
        assert((p + 1) * pl == p * pl + pl) by (nonlinear_arith);
        lemma_piece_bounds(m, p + 1);
    }
}

proof fn lemma_held_by(m: Metadata, p: int)
    requires
        m.wf(),
        0 <= p < m.num_pieces,
    ensures
        held_by(m, p) == p * m.piece_length,
    decreases p,
{
    let pl = m.piece_length as int;
    if p > 0 {
        lemma_held_by(m, p - 1);
        lemma_piece_bounds(m, p);
        assert(p * pl == (p - 1) * pl + pl) by (nonlinear_arith);
    } else {
        assert(0 * pl == 0);
    }
}

/// A dictionary says what an info dictionary of one file says.
pub open spec fn tells(
    v: BencodeModel,
    name: Seq<char>,
    piece_length: i64,
    pieces: Seq<u8>,
    length: i64,
) -> bool {
    &&& bencode::entry(v, "name"@) == Some(BencodeModel::ByteString(utf8::encode_utf8(name)))
    &&& bencode::entry(v, "piece length"@) == Some(BencodeModel::Integer(piece_length))
    &&& bencode::entry(v, "pieces"@) == Some(BencodeModel::ByteString(pieces))
    &&& bencode::entry(v, "length"@) == Some(BencodeModel::Integer(length))
    &&& bencode::entry(v, "files"@) is None
}

/// An info dictionary of one file is read as it is meant: its name, the length of
/// its pieces, their digests, and the file. It is refused exactly where there is
/// not one digest for each piece, or where the sizes make no torrent.
pub proof fn law_info_read(
    v: BencodeModel,
    name: Seq<char>,
    piece_length: i64,
    pieces: Seq<u8>,
    length: i64,
    n: int,
)
    requires
        tells(v, name, piece_length, pieces, length),
        0 < piece_length <= usize::MAX,
        0 < length <= usize::MAX,
        (n - 1) * piece_length < length <= n * piece_length,
        n * piece_length <= usize::MAX,
    ensures
        pieces.len() == 20 * n ==> info_of(v) == Ok::<_, Seq<char>>(
            InfoModel {
                name,
                piece_length: piece_length as nat,
                pieces,
                files: seq![FileModel { path: seq![name], length: length as nat }],
            },
        ),
        pieces.len() != 20 * n ==> info_of(v) is Err,
{
    utf8::encode_utf8_valid_utf8(name);
    utf8::encode_utf8_decode_utf8(name);
    let files = seq![FileModel { path: seq![name], length: length as nat }];
    assert(files.drop_last() =~= Seq::empty());
    assert(total_length(files.drop_last()) == 0);
    assert(total_length(files) == length);
    let pl = piece_length as int;
    let l = length as int;
    assert((l - 1) / pl == n - 1) by (nonlinear_arith)
        requires
            pl > 0,
            (n - 1) * pl < l <= n * pl,
    ;
}

/// The digests of a torrent's pieces are what its info dictionary says, one after
/// the other.
pub proof fn law_digests_in_order(m: Metadata, info: InfoModel, p: int, i: int)
    requires
        says(m, info),
        0 <= p < m.num_pieces,
        0 <= i < 20,
    ensures
        m.pieces@[p].bytes@[i] == info.pieces[20 * p + i],
        info.pieces.len() == 20 * m.num_pieces,
        m.length == total_length(info.files),
{
    assert(m.pieces@[p].bytes@ == info.pieces.subrange(20 * p, 20 * p + 20));
    lemma_file_start(m.files@, m.files@.len() as int);
    assert(file_models(m.files@).take(m.files@.len() as int) =~= info.files);
}

/// A text as a torrent file writes it.
pub open spec fn text_value(t: Seq<char>) -> BencodeModel {
    BencodeModel::ByteString(utf8::encode_utf8(t))
}

/// A list of texts as a torrent file writes it.
pub open spec fn texts_value(texts: Seq<Seq<char>>) -> BencodeModel {
    BencodeModel::List(texts.map_values(|t: Seq<char>| text_value(t)))
}

proof fn lemma_texts_read(texts: Seq<Seq<char>>, name: Seq<char>)
    ensures
        texts_of(texts.map_values(|t: Seq<char>| text_value(t)), name) == Ok::<_, Seq<char>>(texts),
    decreases texts.len(),
{
    let f = |t: Seq<char>| text_value(t);
    let items = texts.map_values(f);
    if texts.len() > 0 {
        let rest = texts.drop_last();
        lemma_texts_read(rest, name);
        assert(items.drop_last() =~= rest.map_values(f));
        utf8::encode_utf8_valid_utf8(texts.last());
        utf8::encode_utf8_decode_utf8(texts.last());
        assert(rest.push(texts.last()) =~= texts);
    } else {
        assert(texts =~= Seq::empty());
    }
}

/// A torrent's trackers are read tier by tier and in order; where there is only
/// one tracker it is a tier of its own, and it does not count where there are
/// tiers.
pub proof fn law_tiers_read(v: BencodeModel, tiers: Seq<Seq<Seq<char>>>, url: Seq<char>)
    ensures
        bencode::entry(v, "announce-list"@) == Some(
            BencodeModel::List(tiers.map_values(|t: Seq<Seq<char>>| texts_value(t))),
        ) ==> announces_of(v) == Ok::<_, Seq<char>>(tiers),
        bencode::entry(v, "announce-list"@) is None && bencode::entry(v, "announce"@) == Some(
            text_value(url),
        ) ==> announces_of(v) == Ok::<_, Seq<char>>(seq![seq![url]]),
        bencode::entry(v, "announce-list"@) is None && bencode::entry(v, "announce"@) is None
            ==> announces_of(v) == Ok::<Seq<Seq<Seq<char>>>, Seq<char>>(Seq::empty()),
{
    lemma_tiers_read(tiers);
    utf8::encode_utf8_valid_utf8(url);
    utf8::encode_utf8_decode_utf8(url);
}

proof fn lemma_tiers_read(tiers: Seq<Seq<Seq<char>>>)
    ensures
        tiers_of(tiers.map_values(|t: Seq<Seq<char>>| texts_value(t))) == Ok::<_, Seq<char>>(tiers),
    decreases tiers.len(),
{
    let f = |t: Seq<Seq<char>>| texts_value(t);
    let items = tiers.map_values(f);
    if tiers.len() > 0 {
        let rest = tiers.drop_last();
        lemma_tiers_read(rest);
        assert(items.drop_last() =~= rest.map_values(f));
        lemma_texts_read(tiers.last(), "announce-list"@);
        assert(rest.push(tiers.last()) =~= tiers);
    } else {
        assert(tiers =~= Seq::empty());
    }
}

/// A file of a torrent with several lies below the torrent's directory, at the
/// path that is given, and has the size that is given.
pub proof fn law_file_read(v: BencodeModel, name: Seq<char>, path: Seq<Seq<char>>, length: i64)
    requires
        bencode::entry(v, "length"@) == Some(BencodeModel::Integer(length)),
        bencode::entry(v, "path"@) == Some(texts_value(path)),
        0 <= length <= usize::MAX,
    ensures
        file_of(v, name) matches Ok(f) && f.length == length && f.path.len() == path.len() + 1
            && f.path[0] == name && f.path.skip(1) == path,
{
    lemma_texts_read(path, "path"@);
    assert((seq![name] + path).skip(1) =~= path);
}

} // verus!
