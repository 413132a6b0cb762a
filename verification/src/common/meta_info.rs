use vstd::prelude::*;

use crate::bencoding::data_kind::{
    get_as, key_bytes, lemma_model_dict, list_model, ConvertError, DataKind, Dictionary,
    FromDataKind, List,
};
use crate::bencoding::encoder::Encode;
use crate::bencoding::format::encode;
use crate::bencoding::spec::{dict_lookup, BValue};
use crate::common::hash::{hash_to_bytes, hash_to_uri_str, sha1_digest, uri_bytes, Sha1Hash};
use vstd::utf8::{decode_utf8, encode_utf8, valid_utf8};

verus! {

/// A file of a torrent: its length and its path, as components (the torrent's directory
/// first, for a torrent of several files).
#[derive(Debug, Clone)]
pub struct File {
    pub length: usize,
    pub path: Vec<String>,
}

/// What a torrent file describes.
#[derive(Debug, Clone)]
pub struct MetaInfo {
    pub announce: String,
    pub piece_length: usize,
    pub pieces: Vec<Sha1Hash>,
    pub files: Vec<File>,
    pub total_size: usize,
    pub info_hash_raw: Sha1Hash,
    pub info_hash_uri: String,
}

/// A file as read from a torrent's info dictionary.
pub struct FileModel {
    pub length: usize,
    pub path: Seq<Seq<char>>,
}

/// What a torrent's metainfo dictionary says.
pub struct MetaModel {
    pub announce: Seq<char>,
    pub piece_length: usize,
    pub pieces: Seq<u8>,
    pub files: Seq<FileModel>,
    pub total_size: int,
    pub info: Seq<(Seq<u8>, BValue)>,
}

/// The entry under `name` of dictionary entries `d`.
pub open spec fn field(d: Seq<(Seq<u8>, BValue)>, name: Seq<char>) -> Option<BValue> {
    dict_lookup(d, encode_utf8(name))
}

/// A byte string that is UTF-8 text, as that text.
pub open spec fn as_text(v: Option<BValue>) -> Option<Seq<char>> {
    match v {
        Some(BValue::Bytes(b)) => if valid_utf8(b) {
            Some(decode_utf8(b))
        } else {
            None
        },
        _ => None,
    }
}

/// An integer that is a `usize`.
pub open spec fn as_size(v: Option<BValue>) -> Option<usize> {
    match v {
        Some(BValue::Int(i)) => if 0 <= i <= usize::MAX {
            Some(i as usize)
        } else {
            None
        },
        _ => None,
    }
}

pub open spec fn as_entries(v: Option<BValue>) -> Option<Seq<(Seq<u8>, BValue)>> {
    match v {
        Some(BValue::Dict(d)) => Some(d),
        _ => None,
    }
}

pub open spec fn as_raw(v: Option<BValue>) -> Option<Seq<u8>> {
    match v {
        Some(BValue::Bytes(b)) => Some(b),
        _ => None,
    }
}

pub open spec fn as_items(v: Option<BValue>) -> Option<Seq<BValue>> {
    match v {
        Some(BValue::List(l)) => Some(l),
        _ => None,
    }
}

/// The texts of a list of path components, when all of them are text.
pub open spec fn path_texts(parts: Seq<BValue>) -> Option<Seq<Seq<char>>>
    decreases parts.len(),
{
    if parts.len() == 0 {
        Some(Seq::empty())
    } else {
        match as_text(Some(parts[0])) {
            None => None,
            Some(t) => match path_texts(parts.drop_first()) {
                None => None,
                Some(ts) => Some(seq![t] + ts),
            },
        }
    }
}

/// The length of a file entry of the `files` list.
pub open spec fn file_length(v: BValue) -> Option<usize> {
    match as_entries(Some(v)) {
        Some(d) => as_size(field(d, "length"@)),
        None => None,
    }
}

/// The path of a file entry of the `files` list, below directory `dir`.
pub open spec fn file_path(v: BValue, dir: Seq<char>) -> Option<Seq<Seq<char>>> {
    match as_entries(Some(v)) {
        Some(d) => match as_items(field(d, "path"@)) {
            Some(parts) => match path_texts(parts) {
                Some(ts) => Some(seq![dir] + ts),
                None => None,
            },
            None => None,
        },
        None => None,
    }
}

/// The files of a `files` list, when every entry is readable.
pub open spec fn read_files(list: Seq<BValue>, dir: Seq<char>) -> Option<Seq<FileModel>>
    decreases list.len(),
{
    if list.len() == 0 {
        Some(Seq::empty())
    } else {
        match (file_length(list[0]), file_path(list[0], dir)) {
            (Some(length), Some(path)) => match read_files(list.drop_first(), dir) {
                Some(fs) => Some(seq![FileModel { length, path }] + fs),
                None => None,
            },
            _ => None,
        }
    }
}

/// The sum of the lengths of `files`.
pub open spec fn total_length(files: Seq<FileModel>) -> int
    decreases files.len(),
{
    if files.len() == 0 {
        0
    } else {
        files[0].length + total_length(files.drop_first())
    }
}

/// Reading the `files` list with `acc` bytes counted so far, the running total of the
/// lengths passes `usize::MAX` before an entry turns out unreadable.
pub open spec fn files_overflow(list: Seq<BValue>, dir: Seq<char>, acc: int) -> bool
    decreases list.len(),
{
    if list.len() == 0 {
        false
    } else {
        match file_length(list[0]) {
            None => false,
            Some(length) => if acc + length > usize::MAX {
                true
            } else if file_path(list[0], dir) is None {
                false
            } else {
                files_overflow(list.drop_first(), dir, acc + length)
            },
        }
    }
}

/// The torrent described by metainfo dictionary `d`, when it can be read: `announce` text;
/// an `info` dictionary with a `piece length`, the concatenated piece hashes `pieces`, a
/// `name`, and either the `length` of a single file or a `files` list.
pub open spec fn read_meta_info(d: Seq<(Seq<u8>, BValue)>) -> Option<MetaModel> {
    match (as_text(field(d, "announce"@)), as_entries(field(d, "info"@))) {
        (Some(announce), Some(info)) => match (
            as_size(field(info, "piece length"@)),
            as_raw(field(info, "pieces"@)),
        ) {
            (Some(piece_length), Some(pieces)) => match field(info, "length"@) {
                Some(lv) => match (as_size(Some(lv)), as_text(field(info, "name"@))) {
                    (Some(length), Some(name)) => Some(
                        MetaModel {
                            announce,
                            piece_length,
                            pieces,
                            files: seq![FileModel { length, path: seq![name] }],
                            total_size: length as int,
                            info,
                        },
                    ),
                    _ => None,
                },
                None => match (as_text(field(info, "name"@)), as_items(field(info, "files"@))) {
                    (Some(dir), Some(list)) => match read_files(list, dir) {
                        Some(files) => Some(
                            MetaModel {
                                announce,
                                piece_length,
                                pieces,
                                files,
                                total_size: total_length(files),
                                info,
                            },
                        ),
                        None => None,
                    },
                    _ => None,
                },
            },
            _ => None,
        },
        _ => None,
    }
}

/// The message of the error `get_as::<T>` gives for the item `item` under the key `name`:
/// a missing item is named, one that is not a `T` is refused; `None` when it reads.
pub open spec fn get_refusal<T: FromDataKind>(item: Option<BValue>, name: Seq<char>) -> Option<
    Seq<char>,
> {
    match item {
        None => Some("dictionary is missing '"@ + name + "' key"@),
        Some(v) => if T::accepts(v) {
            None
        } else {
            Some(T::refusal(v))
        },
    }
}

/// The message of the error that reading the metainfo dictionary `d` gives, when an
/// entry outside the list of files is missing or of the wrong type: the entries are read
/// in the order announce, info, piece length, pieces, length, name and files, and the
/// first that fails gives the error. `None` when all of these read.
pub open spec fn meta_info_refusal(d: Seq<(Seq<u8>, BValue)>) -> Option<Seq<char>> {
    let announce = get_refusal::<String>(field(d, "announce"@), "announce"@);
    let info_item = field(d, "info"@);
    let info = get_refusal::<Dictionary>(info_item, "info"@);
    if announce is Some {
        announce
    } else if info is Some {
        info
    } else {
        let i = info_item->Some_0->Dict_0;
        let piece_length = get_refusal::<usize>(field(i, "piece length"@), "piece length"@);
        let pieces = get_refusal::<Vec<u8>>(field(i, "pieces"@), "pieces"@);
        let name = get_refusal::<String>(field(i, "name"@), "name"@);
        if piece_length is Some {
            piece_length
        } else if pieces is Some {
            pieces
        } else {
            match field(i, "length"@) {
                Some(lv) => if !<usize as FromDataKind>::accepts(lv) {
                    Some(<usize as FromDataKind>::refusal(lv))
                } else {
                    name
                },
                None => if name is Some {
                    name
                } else {
                    get_refusal::<Vec<DataKind>>(field(i, "files"@), "files"@)
                },
            }
        }
    }
}

/// Reading metainfo dictionary `d` stops on a failed check: the piece hashes are not a
/// whole number of hashes, or the total length of the files passes `usize::MAX`.
pub open spec fn meta_info_panics(d: Seq<(Seq<u8>, BValue)>) -> bool {
    match (as_text(field(d, "announce"@)), as_entries(field(d, "info"@))) {
        (Some(_), Some(info)) => match (
            as_size(field(info, "piece length"@)),
            as_raw(field(info, "pieces"@)),
        ) {
            (Some(_), Some(pieces)) => pieces.len() % 20 != 0 || (field(info, "length"@) is None
                && match (as_text(field(info, "name"@)), as_items(field(info, "files"@))) {
                (Some(dir), Some(list)) => files_overflow(list, dir, 0),
                _ => false,
            }),
            _ => false,
        },
        _ => false,
    }
}

/// The path of `f`, component by component.
pub open spec fn path_model(path: Seq<String>) -> Seq<Seq<char>> {
    Seq::new(path.len(), |i: int| path[i]@)
}

impl File {
    pub open spec fn model(self) -> FileModel {
        FileModel { length: self.length, path: path_model(self.path@) }
    }
}

/// The models of a list of files.
pub open spec fn files_model(files: Seq<File>) -> Seq<FileModel> {
    Seq::new(files.len(), |i: int| files[i].model())
}

impl MetaInfo {
    /// `self` is what `m` describes: the same announce URL, piece length and files, the
    /// piece hashes cut out of `m.pieces` 20 bytes at a time, and the SHA-1 digest of the
    /// bencoded info dictionary, raw and as URI text.
    pub open spec fn describes(self, m: MetaModel) -> bool {
        &&& self.announce@ == m.announce
        &&& self.piece_length == m.piece_length
        &&& self.pieces@.len() == m.pieces.len() / 20
        &&& forall|i: int|
            0 <= i < self.pieces@.len() ==> #[trigger] self.pieces@[i]@ == m.pieces.subrange(
                20 * i,
                20 * i + 20,
            )
        &&& files_model(self.files@) == m.files
        &&& self.total_size == m.total_size
        &&& self.info_hash_raw@ == sha1_digest(encode(BValue::Dict(m.info)))
        &&& key_bytes(self.info_hash_uri) == uri_bytes(sha1_digest(encode(BValue::Dict(m.info))))
    }

    /// Reads a torrent's metainfo dictionary; fails when a required entry is missing or
    /// of the wrong type.
    pub fn from_dict(dict: Dictionary) -> (r: Result<MetaInfo, ConvertError>)
        requires
            !meta_info_panics(dict.model()),
        ensures
            match read_meta_info(dict.model()) {
                Some(m) => r matches Ok(info) && info.describes(m),
                None => r is Err,
            },
            meta_info_refusal(dict.model()) matches Some(message) ==> r matches Err(e)
                && e.message() == message,
    {
        let announce: String = match get_as(&dict, "announce") {
            Ok(v) => v,
            Err(e) => return Err(e),
        };
        let info: Dictionary = match get_as(&dict, "info") {
            Ok(v) => v,
            Err(e) => return Err(e),
        };
        let piece_length: usize = match get_as(&info, "piece length") {
            Ok(v) => v,
            Err(e) => return Err(e),
        };
        let raw_pieces: Vec<u8> = match get_as(&info, "pieces") {
            Ok(v) => v,
            Err(e) => return Err(e),
        };
        let pieces = split_hashes(&raw_pieces);
        let ghost info_model = info.model();
        let length_entry: Option<usize> = match info.get_as("length") {
            Ok(v) => v,
            Err(e) => return Err(e),
        };
        let mut files: Vec<File> = Vec::new();
        let total_size: usize;
        if let Some(length) = length_entry {
            let path: String = match get_as(&info, "name") {
                Ok(v) => v,
                Err(e) => return Err(e),
            };
            let mut components: Vec<String> = Vec::new();
            components.push(path);
            files.push(File { length, path: components });
            total_size = length;
            proof {
                assert(path_model(files@[0].path@) =~= seq![path@]);
                assert(files_model(files@) =~= seq![FileModel { length, path: seq![path@] }]);
            }
        } else {
            let directory: String = match get_as(&info, "name") {
                Ok(v) => v,
                Err(e) => return Err(e),
            };
            let files_list: List = match get_as(&info, "files") {
                Ok(v) => v,
                Err(e) => return Err(e),
            };
            match read_file_list(&files_list, &directory) {
                Ok((fs, total)) => {
                    files = fs;
                    total_size = total;
                },
                Err(e) => return Err(e),
            }
        }
        let bencoded_info = info.bencode();
        let info_hash_uri = hash_to_uri_str(bencoded_info.as_slice());
        let info_hash_raw = hash_to_bytes(bencoded_info.as_slice());
        Ok(MetaInfo { announce, piece_length, pieces, files, total_size, info_hash_raw, info_hash_uri })
    }
}

/// Cuts concatenated 20-byte hashes apart.
fn split_hashes(raw: &Vec<u8>) -> (r: Vec<Sha1Hash>)
    requires
        raw@.len() % 20 == 0,
    ensures
        r@.len() == raw@.len() / 20,
        forall|i: int| 0 <= i < r@.len() ==> #[trigger] r@[i]@ == raw@.subrange(20 * i, 20 * i + 20),
{
    let num_pieces = raw.len() / 20;
    let mut pieces: Vec<Sha1Hash> = Vec::new();
    let mut i: usize = 0;
    while i < num_pieces
        invariant
            num_pieces == raw@.len() / 20,
            raw@.len() == 20 * num_pieces,
            raw@.len() <= usize::MAX,
            i <= num_pieces,
            pieces@.len() == i,
            forall|k: int| 0 <= k < i ==> #[trigger] pieces@[k]@ == raw@.subrange(20 * k, 20 * k + 20),
        decreases num_pieces - i,
    {
        let start = i * 20;
        let mut hash: Sha1Hash = [0u8; 20];
        let mut j: usize = 0;
        while j < 20
            invariant
                j <= 20,
                start == 20 * i,
                start + 20 <= raw@.len(),
                raw@.len() <= usize::MAX,
                hash@.len() == 20,
                forall|k: int| 0 <= k < j ==> #[trigger] hash@[k] == raw@[start + k],
            decreases 20 - j,
        {
            hash[j] = raw[start + j];
            j = j + 1;
        }
        assert(hash@ =~= raw@.subrange(20 * i, 20 * i + 20));
        pieces.push(hash);
        i = i + 1;
    }
    pieces
}

/// The length of a `files` entry.
fn file_entry_length(item: &DataKind) -> (r: Result<usize, ConvertError>)
    ensures
        match file_length(item.model()) {
            Some(l) => r == Ok::<usize, ConvertError>(l),
            None => r is Err,
        },
{
    let as_dict = match item.as_dict() {
        Ok(d) => d,
        Err(e) => return Err(e),
    };
    proof {
        lemma_model_dict(*as_dict);
    }
    get_as(as_dict, "length")
}

/// The path of a `files` entry below `directory`, component by component.
fn file_entry_path(item: &DataKind, directory: &String) -> (r: Result<Vec<String>, ConvertError>)
    ensures
        match file_path(item.model(), directory@) {
            Some(p) => r matches Ok(v) && path_model(v@) == p,
            None => r is Err,
        },
{
    let as_dict = match item.as_dict() {
        Ok(d) => d,
        Err(e) => return Err(e),
    };
    proof {
        lemma_model_dict(*as_dict);
    }
    let path_list: List = match get_as(as_dict, "path") {
        Ok(v) => v,
        Err(e) => return Err(e),
    };
    let ghost parts = list_model(path_list@);
    assert(file_path(item.model(), directory@) == below(directory@, path_texts(parts)));
    let mut path: Vec<String> = Vec::new();
    path.push(directory.clone());
    let ghost mut done: Seq<Seq<char>> = Seq::empty();
    let mut j: usize = 0;
    assert(parts.skip(0) =~= parts);
    assert(path_model(path@) =~= seq![directory@] + done);
    while j < path_list.len()
        invariant
            j <= path_list@.len(),
            parts == list_model(path_list@),
            file_path(item.model(), directory@) == below(directory@, path_texts(parts)),
            path_model(path@) == seq![directory@] + done,
            path_texts(parts) == prepend_texts(done, path_texts(parts.skip(j as int))),
        decreases path_list@.len() - j,
    {
        let ghost rest = parts.skip(j as int);
        assert(rest[0] == path_list@[j as int].model());
        assert(rest.drop_first() =~= parts.skip(j + 1));
        let part = match path_list[j].as_utf8() {
            Ok(s) => s,
            Err(e) => {
                return Err(e);
            },
        };
        let owned = part.to_owned();
        proof {
            match path_texts(parts.skip(j + 1)) {
                Some(ts) => {
                    assert(done + (seq![owned@] + ts) =~= done.push(owned@) + ts);
                },
                None => {},
            }
        }
        let ghost before = path@;
        let ghost done_before = done;
        path.push(owned);
        proof {
            done = done_before.push(owned@);
            assert(path_model(path@) =~= path_model(before).push(owned@));
            assert(seq![directory@] + done =~= (seq![directory@] + done_before).push(owned@));
        }
        j = j + 1;
    }
    assert(parts.skip(j as int) =~= Seq::<BValue>::empty());
    assert(done + Seq::<Seq<char>>::empty() =~= done);
    Ok(path)
}

/// Reads the entries of a `files` list below directory `directory`: the files and the
/// sum of their lengths.
fn read_file_list(list: &Vec<DataKind>, directory: &String) -> (r: Result<
    (Vec<File>, usize),
    ConvertError,
>)
    requires
        !files_overflow(list_model(list@), directory@, 0),
    ensures
        match read_files(list_model(list@), directory@) {
            Some(fs) => r matches Ok((files, total)) && files_model(files@) == fs && total
                == total_length(fs),
            None => r is Err,
        },
{
    let ghost all = list_model(list@);
    let mut files: Vec<File> = Vec::new();
    let mut total_size: usize = 0;
    let mut i: usize = 0;
    assert(all.skip(0) =~= all);
    assert(files_model(files@) =~= Seq::<FileModel>::empty());
    proof {
        match read_files(all, directory@) {
            Some(fs) => assert(Seq::<FileModel>::empty() + fs =~= fs),
            None => {},
        }
    }
    while i < list.len()
        invariant
            i <= list@.len(),
            all == list_model(list@),
            read_files(all, directory@) == prepend_files(
                files_model(files@),
                read_files(all.skip(i as int), directory@),
            ),
            !files_overflow(all.skip(i as int), directory@, total_size as int),
            total_size == total_length(files_model(files@)),
        decreases list@.len() - i,
    {
        let ghost rest = all.skip(i as int);
        assert(rest[0] == list@[i as int].model());
        assert(rest.drop_first() =~= all.skip(i + 1));
        let length = match file_entry_length(&list[i]) {
            Ok(v) => v,
            Err(e) => return Err(e),
        };
        total_size = total_size + length;
        let path = match file_entry_path(&list[i], directory) {
            Ok(v) => v,
            Err(e) => return Err(e),
        };
        let file = File { length, path };
        let ghost fm = files_model(files@);
        proof {
            lemma_total_length_push(fm, file.model());
            match read_files(all.skip(i + 1), directory@) {
                Some(fs) => {
                    assert(fm + (seq![file.model()] + fs) =~= fm.push(file.model()) + fs);
                },
                None => {},
            }
        }
        files.push(file);
        assert(files_model(files@) =~= fm.push(file.model()));
        i = i + 1;
    }
    assert(all.skip(i as int) =~= Seq::<BValue>::empty());
    assert(files_model(files@) + Seq::<FileModel>::empty() =~= files_model(files@));
    Ok((files, total_size))
}

proof fn lemma_total_length_push(fs: Seq<FileModel>, f: FileModel)
    ensures
        total_length(fs.push(f)) == total_length(fs) + f.length,
    decreases fs.len(),
{
    assert(fs.push(f)[0] == if fs.len() == 0 {
        f
    } else {
        fs[0]
    });
    if fs.len() == 0 {
        assert(fs.push(f).drop_first() =~= Seq::<FileModel>::empty());
        assert(total_length(fs.push(f).drop_first()) == 0);
    } else {
        lemma_total_length_push(fs.drop_first(), f);
        assert(fs.push(f).drop_first() =~= fs.drop_first().push(f));
    }
}

/// Path components below directory `dir`.
pub open spec fn below(dir: Seq<char>, r: Option<Seq<Seq<char>>>) -> Option<Seq<Seq<char>>> {
    match r {
        Some(ts) => Some(seq![dir] + ts),
        None => None,
    }
}

pub open spec fn prepend_files(done: Seq<FileModel>, r: Option<Seq<FileModel>>) -> Option<Seq<FileModel>> {
    match r {
        Some(fs) => Some(done + fs),
        None => None,
    }
}

pub open spec fn prepend_texts(done: Seq<Seq<char>>, r: Option<Seq<Seq<char>>>) -> Option<Seq<Seq<char>>> {
    match r {
        Some(ts) => Some(done + ts),
        None => None,
    }
}

/// Whether reading the `files` list with `acc` bytes counted so far would overflow the
/// running total.
fn file_list_overflows(list: &Vec<DataKind>, directory: &String) -> (r: bool)
    ensures
        r == files_overflow(list_model(list@), directory@, 0),
{
    let ghost all = list_model(list@);
    let mut total: usize = 0;
    let mut i: usize = 0;
    assert(all.skip(0) =~= all);
    while i < list.len()
        invariant
            i <= list@.len(),
            all == list_model(list@),
            files_overflow(all, directory@, 0) == files_overflow(
                all.skip(i as int),
                directory@,
                total as int,
            ),
        decreases list@.len() - i,
    {
        let ghost rest = all.skip(i as int);
        assert(rest[0] == list@[i as int].model());
        assert(rest.drop_first() =~= all.skip(i + 1));
        let length = match file_entry_length(&list[i]) {
            Ok(v) => v,
            Err(_) => return false,
        };
        if length > usize::MAX - total {
            return true;
        }
        total = total + length;
        if file_entry_path(&list[i], directory).is_err() {
            return false;
        }
        i = i + 1;
    }
    assert(all.skip(i as int) =~= Seq::<BValue>::empty());
    false
}

impl MetaInfo {
    /// Whether reading `dict` with `from_dict` would stop on a failed check: piece hashes
    /// that are not a whole number of hashes, or files whose total length passes
    /// `usize::MAX`.
    pub fn dict_fails_checks(dict: &Dictionary) -> (r: bool)
        ensures
            r == meta_info_panics(dict.model()),
    {
        let announce: Result<String, ConvertError> = get_as(dict, "announce");
        let info: Dictionary = match get_as(dict, "info") {
            Ok(v) => v,
            Err(_) => return false,
        };
        if announce.is_err() {
            return false;
        }
        let piece_length: Result<usize, ConvertError> = get_as(&info, "piece length");
        let raw_pieces: Vec<u8> = match get_as(&info, "pieces") {
            Ok(v) => v,
            Err(_) => return false,
        };
        if piece_length.is_err() {
            return false;
        }
        if raw_pieces.len() % 20 != 0 {
            return true;
        }
        if info.get("length").is_some() {
            return false;
        }
        let directory: String = match get_as(&info, "name") {
            Ok(v) => v,
            Err(_) => return false,
        };
        let files_list: List = match get_as(&info, "files") {
            Ok(v) => v,
            Err(_) => return false,
        };
        file_list_overflows(&files_list, &directory)
    }
}

} // verus!
