use vstd::prelude::*;
use crate::bencode::{
    enc, enc_dict, enc_str, lemma_dict_at, lemma_enc_dict_entries, lemma_enc_list_items, lemma_enc_same_kind, starts_with_at,
    BencodeValue,
};
use crate::digest::{sha1_digest, sha1_of};
use crate::error::{text, BoostError, BoostResult};
use crate::utf8::{string_from_utf8, utf8_text};

verus! {

broadcast use {
    vstd::std_specs::vec::axiom_vec_decreases_to_view,
    vstd::std_specs::vec::axiom_vec_index_decreases,
    vstd::seq::axiom_seq_index_decreases,
    vstd::seq::axiom_seq_subrange_decreases,
};

/// What a metafile describes: where to announce, how the payload is cut into
/// pieces and what each must hash to, the torrent's identity, and its files.
#[derive(Debug, PartialEq, Eq)]
pub struct MetaInfo {
    pub announce_url: String,
    pub piece_len: u64,
    pub info_hash: [u8; 20],
    pub piece_hashes: Vec<[u8; 20]>,
    pub file_info: FileInfo,
}

/// One file, or a root directory holding several.
#[derive(Debug, PartialEq, Eq)]
pub enum FileInfo {
    Single { filename: String, filelength: u64 },
    Multi { rootdir: String, files: Vec<FileInfo> },
}

/// The number of bytes on disk: a file's length, or the sum over the files.
pub open spec fn file_total(f: FileInfo) -> nat
    decreases f,
{
    match f {
        FileInfo::Single { filelength, .. } => filelength as nat,
        FileInfo::Multi { files, .. } => files_total(files@),
    }
}

/// The sum of the files' totals.
pub open spec fn files_total(fs: Seq<FileInfo>) -> nat
    decreases fs,
{
    if fs.len() == 0 {
        0
    } else {
        files_total(fs.drop_last()) + file_total(fs.last())
    }
}

/// The number of pieces of `piece_len` bytes that hold `total` bytes.
pub open spec fn pieces_for(total: nat, piece_len: nat) -> nat
    recommends
        piece_len > 0,
{
    total / piece_len + if total % piece_len == 0 {
        0nat
    } else {
        1nat
    }
}

impl MetaInfo {
    /// Positive piece length, a total that fits in a `u64`, and one hash for
    /// each piece.
    pub open spec fn wf(&self) -> bool {
        &&& self.piece_len > 0
        &&& file_total(self.file_info) <= u64::MAX
        &&& self.piece_hashes@.len() == pieces_for(file_total(self.file_info), self.piece_len as nat)
    }

    /// The number of pieces: the total size divided by the piece length,
    /// rounded up.
    pub fn num_pieces(&self) -> (r: usize)
        requires
            self.wf(),
        ensures
            r == pieces_for(file_total(self.file_info), self.piece_len as nat),
    {
        let bytes = self.file_info.total_bytes();
        let extra: u64 = if bytes % self.piece_len == 0 {
            0
        } else {
            1
        };
        let n = self.piece_hashes.len();
        assert(n == bytes / self.piece_len + extra);
        (bytes / self.piece_len + extra) as usize
    }
}

proof fn lemma_files_total_prefix(fs: Seq<FileInfo>, k: int)
    requires
        0 <= k <= fs.len(),
    ensures
        files_total(fs.subrange(0, k)) <= files_total(fs),
    decreases fs.len(),
{
    if k < fs.len() {
        lemma_files_total_prefix(fs.drop_last(), k);
        assert(fs.drop_last().subrange(0, k) =~= fs.subrange(0, k));
    } else {
        assert(fs.subrange(0, k) =~= fs);
    }
}

impl FileInfo {
    /// The number of bytes the torrent takes on disk.
    pub fn total_bytes(&self) -> (r: u64)
        requires
            file_total(*self) <= u64::MAX,
        ensures
            r == file_total(*self),
        decreases self,
    {
        match self {
            FileInfo::Single { filelength, .. } => *filelength,
            FileInfo::Multi { files, .. } => {
                let mut sum: u64 = 0;
                let mut k: usize = 0;
                while k < files.len()
                    invariant
                        k <= files@.len(),
                        *self == (FileInfo::Multi { rootdir: self->rootdir, files: *files }),
                        decreases_to!(*self => *files),
                        files_total(files@) <= u64::MAX,
                        sum == files_total(files@.subrange(0, k as int)),
                    decreases files.len() - k,
                {
                    proof {
                        vstd::std_specs::vec::axiom_vec_index_decreases(*files, k as int);
                        assert(files@.subrange(0, k + 1).drop_last() =~= files@.subrange(0, k as int));
                        lemma_files_total_prefix(files@, k + 1);
                    }
                    let t = files[k].total_bytes();
                    sum = sum + t;
                    k = k + 1;
                }
                assert(files@.subrange(0, k as int) =~= files@);
                sum
            },
        }
    }
}

/// The value of the first entry whose key is `key`.
pub open spec fn lookup(d: Seq<(Vec<u8>, BencodeValue)>, key: Seq<u8>) -> Option<BencodeValue>
    decreases d.len(),
{
    if d.len() == 0 {
        None
    } else if d[0].0@ == key {
        Some(d[0].1)
    } else {
        lookup(d.drop_first(), key)
    }
}

/// The value under `key` when `v` is a dictionary.
pub open spec fn dict_get(v: BencodeValue, key: Seq<u8>) -> Option<BencodeValue> {
    match v {
        BencodeValue::Dict(d) => lookup(d@, key),
        _ => None,
    }
}

/// The integer under `key`, when there is one.
pub open spec fn int_at(v: BencodeValue, key: Seq<u8>) -> Option<i64> {
    match dict_get(v, key) {
        Some(BencodeValue::Integer(i)) => Some(i),
        _ => None,
    }
}

/// The byte string under `key`, when there is one.
pub open spec fn str_at(v: BencodeValue, key: Seq<u8>) -> Option<Seq<u8>> {
    match dict_get(v, key) {
        Some(BencodeValue::Str(s)) => Some(s@),
        _ => None,
    }
}

/// The index of the first entry with key `key`.
pub fn find_key(d: &Vec<(Vec<u8>, BencodeValue)>, key: &[u8]) -> (r: Option<usize>)
    ensures
        match r {
            Some(i) => i < d@.len() && lookup(d@, key@) == Some(d@[i as int].1),
            None => lookup(d@, key@) is None,
        },
{
    let mut k: usize = 0;
    assert(d@.subrange(0, d@.len() as int) =~= d@);
    while k < d.len()
        invariant
            k <= d@.len(),
            lookup(d@, key@) == lookup(d@.subrange(k as int, d@.len() as int), key@),
        decreases d.len() - k,
    {
        let ghost rest = d@.subrange(k as int, d@.len() as int);
        if d[k].0.len() == key.len() {
            let mut j: usize = 0;
            let mut same = true;
            while j < key.len()
                invariant
                    j <= key@.len(),
                    d@[k as int].0@.len() == key@.len(),
                    k < d@.len(),
                    same == forall|q: int| 0 <= q < j ==> d@[k as int].0@[q] == key@[q],
                decreases key.len() - j,
            {
                if d[k].0[j] != key[j] {
                    same = false;
                }
                j = j + 1;
            }
            if same {
                assert(d@[k as int].0@ =~= key@);
                assert(rest[0] == d@[k as int]);
                return Some(k);
            }
            assert(d@[k as int].0@ != key@) by {
                let q = choose|q: int| 0 <= q < j && d@[k as int].0@[q] != key@[q];
            }
        }
        assert(rest[0] == d@[k as int]);
        assert(rest.drop_first() =~= d@.subrange(k + 1, d@.len() as int));
        k = k + 1;
    }
    None
}

/// The value under `key` when `v` is a dictionary.
pub fn get<'a>(v: &'a BencodeValue, key: &[u8]) -> (r: Option<&'a BencodeValue>)
    ensures
        match r {
            Some(x) => dict_get(*v, key@) == Some(*x),
            None => dict_get(*v, key@) is None,
        },
{
    match v {
        BencodeValue::Dict(d) => match find_key(d, key) {
            Some(i) => Some(&d[i].1),
            None => None,
        },
        _ => None,
    }
}

/// `announce`
pub open spec fn key_announce() -> Seq<u8> {
    seq![97u8, 110, 110, 111, 117, 110, 99, 101]
}

/// `info`
pub open spec fn key_info() -> Seq<u8> {
    seq![105u8, 110, 102, 111]
}

/// `piece length`
pub open spec fn key_piece_length() -> Seq<u8> {
    seq![112u8, 105, 101, 99, 101, 32, 108, 101, 110, 103, 116, 104]
}

/// `pieces`
pub open spec fn key_pieces() -> Seq<u8> {
    seq![112u8, 105, 101, 99, 101, 115]
}

/// `name`
pub open spec fn key_name() -> Seq<u8> {
    seq![110u8, 97, 109, 101]
}

/// `length`
pub open spec fn key_length() -> Seq<u8> {
    seq![108u8, 101, 110, 103, 116, 104]
}

/// `files`
pub open spec fn key_files() -> Seq<u8> {
    seq![102u8, 105, 108, 101, 115]
}

/// `path`
pub open spec fn key_path() -> Seq<u8> {
    seq![112u8, 97, 116, 104]
}

/// The info dictionary of a metafile's top-level value.
pub open spec fn info_of(v: BencodeValue) -> Option<BencodeValue> {
    match dict_get(v, key_info()) {
        Some(BencodeValue::Dict(d)) => Some(BencodeValue::Dict(d)),
        _ => None,
    }
}

/// Gets the announce URL: the UTF-8 string under `announce`.
pub fn parse_announce(val: &BencodeValue) -> (r: BoostResult<String>)
    ensures
        match r {
            Ok(s) => str_at(*val, key_announce()) is Some && utf8_text(
                str_at(*val, key_announce())->0,
            ) == Some(s@),
            Err(e) => e is BencodeValueErr && (str_at(*val, key_announce()) is None || utf8_text(
                str_at(*val, key_announce())->0,
            ) is None),
        },
{
    let key: [u8; 8] = [97u8, 110, 110, 111, 117, 110, 99, 101];
    assert(key@ =~= key_announce());
    match get(val, &key) {
        Some(BencodeValue::Str(s)) => match string_from_utf8(s.as_slice()) {
            Some(url) => Ok(url),
            None => Err(BoostError::BencodeValueErr(text("announce is not UTF-8"))),
        },
        _ => Err(BoostError::BencodeValueErr(text("could not find announce"))),
    }
}

/// The piece length and the piece hashes are present and well formed.
pub open spec fn pieces_ok(val: BencodeValue) -> bool {
    &&& info_of(val) is Some
    &&& int_at(info_of(val)->0, key_piece_length()) is Some
    &&& int_at(info_of(val)->0, key_piece_length())->0 > 0
    &&& str_at(info_of(val)->0, key_pieces()) is Some
    &&& str_at(info_of(val)->0, key_pieces())->0.len() % 20 == 0
}

/// Gets the piece length and the 20-byte piece hashes, which are the
/// `pieces` string cut in order.
pub fn parse_pieces(val: &BencodeValue) -> (r: BoostResult<(u64, Vec<[u8; 20]>)>)
    ensures
        r is Ok <==> pieces_ok(*val),
        match r {
            Ok((len, hashes)) => {
                let info = info_of(*val)->0;
                let p = str_at(info, key_pieces())->0;
                &&& len == int_at(info, key_piece_length())->0
                &&& hashes@.len() == p.len() / 20
                &&& forall|i: int|
                    0 <= i < hashes@.len() ==> #[trigger] hashes@[i]@ == p.subrange(
                        20 * i,
                        20 * i + 20,
                    )
            },
            Err(e) => e is BencodeValueErr,
        },
{
    let key_i: [u8; 4] = [105u8, 110, 102, 111];
    assert(key_i@ =~= key_info());
    let info = match get(val, &key_i) {
        Some(d) => match d {
            BencodeValue::Dict(_) => d,
            _ => return Err(BoostError::BencodeValueErr(text("info is not a dictionary"))),
        },
        None => return Err(BoostError::BencodeValueErr(text("could not find info"))),
    };
    let key_l: [u8; 12] = [112u8, 105, 101, 99, 101, 32, 108, 101, 110, 103, 116, 104];
    assert(key_l@ =~= key_piece_length());
    let key_p: [u8; 6] = [112u8, 105, 101, 99, 101, 115];
    assert(key_p@ =~= key_pieces());
    let len = match get(info, &key_l) {
        Some(BencodeValue::Integer(len)) => *len,
        _ => return Err(BoostError::BencodeValueErr(text("piece length is not an integer"))),
    };
    let pieces = match get(info, &key_p) {
        Some(BencodeValue::Str(p)) => p,
        _ => return Err(BoostError::BencodeValueErr(text("pieces is not a string"))),
    };
    if len <= 0 || pieces.len() % 20 != 0 {
        return Err(BoostError::BencodeValueErr(text("bad piece length or piece hashes")));
    }
    let plen = pieces.len();
    let mut piece_vec: Vec<[u8; 20]> = Vec::new();
    let mut pos: usize = 0;
    while pos < pieces.len()
        invariant
            pos == 20 * piece_vec@.len(),
            plen == pieces@.len(),
            pos <= pieces@.len(),
            pieces@.len() % 20 == 0,
            piece_vec@.len() == pos / 20,
            forall|i: int|
                0 <= i < piece_vec@.len() ==> #[trigger] piece_vec@[i]@ == pieces@.subrange(
                    20 * i,
                    20 * i + 20,
                ),
        decreases pieces.len() - pos,
    {
        assert(pos + 20 <= pieces@.len()) by (nonlinear_arith)
            requires
                pos == 20 * piece_vec@.len(),
            plen == pieces@.len(),
                pos < pieces@.len(),
                pieces@.len() % 20 == 0,
        ;
        let mut hash: [u8; 20] = [0u8; 20];
        let mut idx: usize = 0;
        while idx < 20
            invariant
                idx <= 20,
                pos + 20 <= pieces@.len(),
                plen == pieces@.len(),
                forall|j: int| 0 <= j < idx ==> hash@[j] == pieces@[pos + j],
            decreases 20 - idx,
        {
            hash[idx] = pieces[pos + idx];
            idx = idx + 1;
        }
        assert(hash@ =~= pieces@.subrange(pos as int, pos + 20));
        piece_vec.push(hash);
        pos = pos + 20;
    }
    Ok((len as u64, piece_vec))
}

/// The path of a file entry: a string, or a list of segments joined with `/`.
pub open spec fn path_of(v: BencodeValue) -> Option<Seq<u8>> {
    match v {
        BencodeValue::Str(s) => Some(s@),
        BencodeValue::List(l) => if l@.len() == 0 {
            None
        } else {
            join_segments(l@)
        },
        _ => None,
    }
}

/// The segments joined with `/`, when each is a string.
pub open spec fn join_segments(l: Seq<BencodeValue>) -> Option<Seq<u8>>
    decreases l.len(),
{
    if l.len() == 0 {
        Some(Seq::empty())
    } else {
        match (join_segments(l.drop_last()), l.last()) {
            (Some(p), BencodeValue::Str(s)) => Some(
                if l.len() == 1 {
                    s@
                } else {
                    p + seq![47u8] + s@
                },
            ),
            _ => None,
        }
    }
}

/// A file entry's path text and length, when it is a dictionary with a
/// non-negative `length` and a UTF-8 `path`.
pub open spec fn entry_of(v: BencodeValue) -> Option<(Seq<char>, i64)> {
    if int_at(v, key_length()) is Some && int_at(v, key_length())->0 >= 0 && dict_get(
        v,
        key_path(),
    ) is Some && path_of(dict_get(v, key_path())->0) is Some && utf8_text(
        path_of(dict_get(v, key_path())->0)->0,
    ) is Some {
        Some(
            (
                utf8_text(path_of(dict_get(v, key_path())->0)->0)->0,
                int_at(v, key_length())->0,
            ),
        )
    } else {
        None
    }
}

/// The torrent's name as text, when present and UTF-8.
pub open spec fn name_of(info: BencodeValue) -> Option<Seq<char>> {
    if str_at(info, key_name()) is Some {
        utf8_text(str_at(info, key_name())->0)
    } else {
        None
    }
}

/// The file list under `files`, when it is a list.
pub open spec fn files_of(info: BencodeValue) -> Option<Seq<BencodeValue>> {
    match dict_get(info, key_files()) {
        Some(BencodeValue::List(l)) => Some(l@),
        _ => None,
    }
}

/// The file layout is present and well formed.
pub open spec fn fileinfo_ok(val: BencodeValue) -> bool {
    let info = info_of(val)->0;
    &&& info_of(val) is Some
    &&& name_of(info) is Some
    &&& if int_at(info, key_length()) is Some {
        int_at(info, key_length())->0 >= 0
    } else {
        &&& files_of(info) is Some
        &&& forall|i: int|
            0 <= i < files_of(info)->0.len() ==> #[trigger] entry_of(files_of(info)->0[i]) is Some
    }
}

/// A file of the layout matches entry `e`.
pub open spec fn file_matches(f: FileInfo, e: BencodeValue) -> bool {
    let entry = entry_of(e)->0;
    &&& f is Single
    &&& entry_of(e) is Some
    &&& f->Single_filename@ == entry.0
    &&& f->Single_filelength == entry.1
}

/// The layout is what the info dictionary describes: one file when it has a
/// `length`, else the listed files under the torrent's name.
pub open spec fn fileinfo_matches(f: FileInfo, val: BencodeValue) -> bool {
    let info = info_of(val)->0;
    if int_at(info, key_length()) is Some {
        &&& f is Single
        &&& f->Single_filename@ == name_of(info)->0
        &&& f->Single_filelength == int_at(info, key_length())->0
    } else {
        &&& f is Multi
        &&& f->Multi_rootdir@ == name_of(info)->0
        &&& f->Multi_files@.len() == files_of(info)->0.len()
        &&& forall|i: int|
            0 <= i < f->Multi_files@.len() ==> file_matches(
                #[trigger] f->Multi_files@[i],
                files_of(info)->0[i],
            )
    }
}

/// The bytes of a path: a string, or string segments joined with `/`.
fn path_bytes(v: &BencodeValue) -> (r: Option<Vec<u8>>)
    ensures
        match r {
            Some(b) => path_of(*v) == Some(b@),
            None => path_of(*v) is None,
        },
{
    match v {
        BencodeValue::Str(s) => Some(crate::wire::copy_range(s.as_slice(), 0, s.len())),
        BencodeValue::List(l) => {
            if l.len() == 0 {
                return None;
            }
            let mut out: Vec<u8> = Vec::new();
            let mut k: usize = 0;
            while k < l.len()
                invariant
                    k <= l@.len(),
                    l@.len() > 0,
                    *v == BencodeValue::List(*l),
                    join_segments(l@.subrange(0, k as int)) == Some(out@),
                decreases l.len() - k,
            {
                let ghost pre = l@.subrange(0, k as int);
                let ghost pre1 = l@.subrange(0, k + 1);
                assert(pre1.drop_last() =~= pre);
                assert(pre1.last() == l@[k as int]);
                match &l[k] {
                    BencodeValue::Str(s) => {
                        if k > 0 {
                            out.push(47u8);
                        }
                        let ghost before = out@;
                        crate::wire::push_all(&mut out, s.as_slice());
                        if k == 0 {
                            assert(out@ =~= s@);
                        } else {
                            assert(out@ =~= before + s@);
                        }
                    },
                    _ => {
                        proof {
                            lemma_join_prefix_none(l@, k as int);
                            assert(join_segments(l@) is None);
                            assert(*v == BencodeValue::List(*l));
                            assert(path_of(*v) is None);
                        }
                        return None;
                    },
                }
                k = k + 1;
            }
            assert(l@.subrange(0, k as int) =~= l@);
            Some(out)
        },
        _ => None,
    }
}

proof fn lemma_join_prefix_none(l: Seq<BencodeValue>, k: int)
    requires
        0 <= k < l.len(),
        !(l[k] is Str),
    ensures
        join_segments(l) is None,
    decreases l.len(),
{
    if k < l.len() - 1 {
        assert(l.drop_last()[k] == l[k]);
        lemma_join_prefix_none(l.drop_last(), k);
    }
}

/// Gets the file layout: a single file when the info dictionary has a
/// `length`, else the listed files under the torrent's name.
pub fn parse_fileinfo(val: &BencodeValue) -> (r: BoostResult<FileInfo>)
    ensures
        r is Ok <==> fileinfo_ok(*val),
        match r {
            Ok(f) => fileinfo_matches(f, *val),
            Err(e) => e is BencodeValueErr,
        },
{
    let key_i: [u8; 4] = [105u8, 110, 102, 111];
    assert(key_i@ =~= key_info());
    let info = match get(val, &key_i) {
        Some(d) => match d {
            BencodeValue::Dict(_) => d,
            _ => return Err(BoostError::BencodeValueErr(text("info is not a dictionary"))),
        },
        None => return Err(BoostError::BencodeValueErr(text("could not find info"))),
    };
    assert(info_of(*val) == Some(*info));
    let key_n: [u8; 4] = [110u8, 97, 109, 101];
    assert(key_n@ =~= key_name());
    let filename = match get(info, &key_n) {
        Some(BencodeValue::Str(n)) => match string_from_utf8(n.as_slice()) {
            Some(s) => s,
            None => return Err(BoostError::BencodeValueErr(text("name is not UTF-8"))),
        },
        _ => return Err(BoostError::BencodeValueErr(text("could not find name"))),
    };
    let key_len: [u8; 6] = [108u8, 101, 110, 103, 116, 104];
    assert(key_len@ =~= key_length());
    if let Some(BencodeValue::Integer(filelength)) = get(info, &key_len) {
        if *filelength < 0 {
            return Err(BoostError::BencodeValueErr(text("negative length")));
        }
        return Ok(FileInfo::Single { filename, filelength: *filelength as u64 });
    }
    let key_f: [u8; 5] = [102u8, 105, 108, 101, 115];
    assert(key_f@ =~= key_files());
    let files = match get(info, &key_f) {
        Some(BencodeValue::List(files)) => files,
        _ => return Err(BoostError::BencodeValueErr(text("files is not a list"))),
    };
    assert(files_of(*info) == Some(files@));
    assert(int_at(*info, key_length()) is None);
    let key_pa: [u8; 4] = [112u8, 97, 116, 104];
    assert(key_pa@ =~= key_path());
    let mut fileinfos: Vec<FileInfo> = Vec::new();
    let mut k: usize = 0;
    while k < files.len()
        invariant
            k <= files@.len(),
            key_len@ == key_length(),
            key_pa@ == key_path(),
            info_of(*val) == Some(*info),
            files_of(*info) == Some(files@),
            int_at(*info, key_length()) is None,
            name_of(*info) == Some(filename@),
            fileinfos@.len() == k,
            forall|i: int| 0 <= i < k ==> file_matches(#[trigger] fileinfos@[i], files@[i]),
        decreases files.len() - k,
    {
        let entry = &files[k];
        assert(entry_of(*entry) is None ==> !fileinfo_ok(*val)) by {
            assert(files_of(*info)->0[k as int] == *entry);
        }
        let len = match get(entry, &key_len) {
            Some(BencodeValue::Integer(len)) => *len,
            _ => return Err(BoostError::BencodeValueErr(text("file length is not an integer"))),
        };
        if len < 0 {
            return Err(BoostError::BencodeValueErr(text("negative file length")));
        }
        let path = match get(entry, &key_pa) {
            Some(p) => match path_bytes(p) {
                Some(b) => b,
                None => return Err(BoostError::BencodeValueErr(text("path is not a string"))),
            },
            None => return Err(BoostError::BencodeValueErr(text("could not find a file path"))),
        };
        let name = match string_from_utf8(path.as_slice()) {
            Some(s) => s,
            None => return Err(BoostError::BencodeValueErr(text("path is not UTF-8"))),
        };
        fileinfos.push(FileInfo::Single { filename: name, filelength: len as u64 });
        k = k + 1;
    }
    let r = FileInfo::Multi { rootdir: filename, files: fileinfos };
    assert(fileinfo_ok(*val)) by {
        assert forall|i: int| 0 <= i < files_of(*info)->0.len() implies #[trigger] entry_of(
            files_of(*info)->0[i],
        ) is Some by {
            assert(file_matches(fileinfos@[i], files@[i]));
        }
    }
    Ok(r)
}

/// Computes the info hash: the SHA-1 digest of the re-encoded `info` value.
pub fn make_info_hash(val: &BencodeValue) -> (r: BoostResult<[u8; 20]>)
    ensures
        match r {
            Ok(h) => dict_get(*val, key_info()) is Some && h@ == sha1_of(
                enc(dict_get(*val, key_info())->0),
            ),
            Err(e) => e is BencodeValueErr && dict_get(*val, key_info()) is None,
        },
{
    let key_i: [u8; 4] = [105u8, 110, 102, 111];
    assert(key_i@ =~= key_info());
    match get(val, &key_i) {
        Some(info) => {
            let to_hash = info.bencode();
            Ok(sha1_digest(to_hash.as_slice()))
        },
        None => Err(BoostError::BencodeValueErr(text("could not find info"))),
    }
}

/// The info hash depends on the metafile's value alone: any two
/// computations of it on the same value give the same 20 bytes.
pub proof fn lemma_info_hash_stable(val: BencodeValue, h1: Seq<u8>, h2: Seq<u8>)
    requires
        dict_get(val, key_info()) is Some,
        h1 == sha1_of(enc(dict_get(val, key_info())->0)),
        h2 == sha1_of(enc(dict_get(val, key_info())->0)),
    ensures
        h1 == h2,
{
}

/// What a metafile's top-level value describes.
pub open spec fn meta_matches(m: MetaInfo, val: BencodeValue) -> bool {
    let info = info_of(val)->0;
    &&& utf8_text(str_at(val, key_announce())->0) == Some(m.announce_url@)
    &&& m.piece_len == int_at(info, key_piece_length())->0
    &&& m.piece_hashes@.len() == str_at(info, key_pieces())->0.len() / 20
    &&& forall|i: int|
        0 <= i < m.piece_hashes@.len() ==> #[trigger] m.piece_hashes@[i]@ == str_at(
            info,
            key_pieces(),
        )->0.subrange(20 * i, 20 * i + 20)
    &&& fileinfo_matches(m.file_info, val)
    &&& m.info_hash@ == sha1_of(enc(dict_get(val, key_info())->0))
}

/// The number of bytes that the info dictionary describes.
pub open spec fn layout_total(val: BencodeValue) -> nat {
    let info = info_of(val)->0;
    if int_at(info, key_length()) is Some {
        int_at(info, key_length())->0 as nat
    } else {
        entries_total(files_of(info)->0)
    }
}

/// The sum of the file entries' lengths.
pub open spec fn entries_total(es: Seq<BencodeValue>) -> nat
    decreases es.len(),
{
    if es.len() == 0 {
        0
    } else {
        let entry = entry_of(es.last())->0;
        entries_total(es.drop_last()) + entry.1 as nat
    }
}

/// Announce URL, pieces and file layout are present and well formed.
pub open spec fn fields_ok(val: BencodeValue) -> bool {
    &&& str_at(val, key_announce()) is Some
    &&& utf8_text(str_at(val, key_announce())->0) is Some
    &&& pieces_ok(val)
    &&& fileinfo_ok(val)
}

/// A metafile value that makes a torrent: its fields are well formed, its
/// total size fits in 64 bits, and it has one hash for each piece.
pub open spec fn meta_ok(val: BencodeValue) -> bool {
    let info = info_of(val)->0;
    &&& fields_ok(val)
    &&& layout_total(val) <= u64::MAX
    &&& str_at(info, key_pieces())->0.len() / 20 == pieces_for(
        layout_total(val),
        int_at(info, key_piece_length())->0 as nat,
    )
}

proof fn lemma_layout_total(f: FileInfo, val: BencodeValue)
    requires
        fileinfo_ok(val),
        fileinfo_matches(f, val),
    ensures
        file_total(f) == layout_total(val),
{
    let info = info_of(val)->0;
    if int_at(info, key_length()) is None {
        let fs = f->Multi_files@;
        let es = files_of(info)->0;
        assert forall|k: int| 0 <= k <= fs.len() implies files_total(#[trigger] fs.subrange(0, k))
            == entries_total(es.subrange(0, k)) by {
            lemma_totals_prefix(fs, es, k);
        }
        assert(fs.subrange(0, fs.len() as int) =~= fs);
        assert(es.subrange(0, es.len() as int) =~= es);
    }
}

proof fn lemma_totals_prefix(fs: Seq<FileInfo>, es: Seq<BencodeValue>, k: int)
    requires
        fs.len() == es.len(),
        0 <= k <= fs.len(),
        forall|i: int| 0 <= i < fs.len() ==> file_matches(#[trigger] fs[i], es[i]),
    ensures
        files_total(fs.subrange(0, k)) == entries_total(es.subrange(0, k)),
    decreases k,
{
    if k > 0 {
        lemma_totals_prefix(fs, es, k - 1);
        assert(fs.subrange(0, k).drop_last() =~= fs.subrange(0, k - 1));
        assert(es.subrange(0, k).drop_last() =~= es.subrange(0, k - 1));
        assert(file_matches(fs[k - 1], es[k - 1]));
        assert(fs.subrange(0, k).last() == fs[k - 1]);
        assert(es.subrange(0, k).last() == es[k - 1]);
        assert(file_total(fs[k - 1]) == fs[k - 1]->Single_filelength);
    } else {
        assert(fs.subrange(0, k).len() == 0);
        assert(es.subrange(0, k).len() == 0);
    }
}

impl MetaInfo {
    /// Reads a metafile's decoded top-level value. Fails with
    /// `BencodeValueErr` where a field is missing or of the wrong kind, and
    /// with `TorrentFileMetaErr` where the sizes do not fit together.
    pub fn from_value(val: &BencodeValue) -> (r: BoostResult<MetaInfo>)
        ensures
            r is Ok <==> meta_ok(*val),
            match r {
                Ok(m) => m.wf() && meta_matches(m, *val),
                Err(e) => if fields_ok(*val) {
                    e is TorrentFileMetaErr
                } else {
                    e is BencodeValueErr
                },
            },
    {
        let announce_url = parse_announce(val)?;
        let (piece_len, piece_hashes) = parse_pieces(val)?;
        let file_info = parse_fileinfo(val)?;
        let info_hash = match make_info_hash(val) {
            Ok(h) => h,
            Err(e) => {
                return Err(e);
            },
        };
        proof {
            lemma_layout_total(file_info, *val);
        }
        let total = match file_info.checked_total() {
            Some(t) => t,
            None => return Err(BoostError::TorrentFileMetaErr),
        };
        let extra: u64 = if total % piece_len == 0 {
            0
        } else {
            1
        };
        let n = piece_hashes.len() as u64;
        let q = total / piece_len;
        if n < q || n - q != extra {
            return Err(BoostError::TorrentFileMetaErr);
        }
        Ok(MetaInfo { announce_url, piece_len, info_hash, piece_hashes, file_info })
    }

    /// Reads a metafile's bytes: decodes them, then reads the top-level
    /// value. Bytes that do not begin with a bencoded value give
    /// `BencodeValueErr`.
    pub fn parse_meta_bytes(buf: &[u8]) -> (r: BoostResult<MetaInfo>)
        ensures
            match r {
                Ok(m) => m.wf() && exists|v: BencodeValue|
                    starts_with_at(buf@, 0, enc(v)) && meta_matches(m, v),
                Err(e) => e is BencodeValueErr || e is TorrentFileMetaErr,
            },
            (forall|v: BencodeValue| !starts_with_at(buf@, 0, enc(v))) ==> r is Err
                && r->Err_0 is BencodeValueErr,
            forall|v: BencodeValue| #[trigger]
                starts_with_at(buf@, 0, enc(v)) ==> (r is Ok <==> meta_ok(v)) && (r is Ok
                    ==> meta_matches(r->Ok_0, v)),
    {
        match BencodeValue::bdecode(buf) {
            Ok(dict) => {
                let r = MetaInfo::from_value(&dict);
                proof {
                    assert forall|v: BencodeValue| #[trigger]
                        starts_with_at(buf@, 0, enc(v)) implies (r is Ok <==> meta_ok(v)) && (r is Ok
                        ==> meta_matches(r->Ok_0, v)) by {
                        lemma_meta_congruent(dict, v);
                    }
                }
                r
            },
            Err(_) => Err(BoostError::BencodeValueErr(text("metafile is not bencoded"))),
        }
    }
}

impl FileInfo {
    /// The total size, or nothing when it does not fit in a `u64`.
    pub fn checked_total(&self) -> (r: Option<u64>)
        ensures
            match r {
                Some(t) => t == file_total(*self),
                None => file_total(*self) > u64::MAX,
            },
        decreases self,
    {
        match self {
            FileInfo::Single { filelength, .. } => Some(*filelength),
            FileInfo::Multi { files, .. } => {
                let mut sum: u64 = 0;
                let mut k: usize = 0;
                while k < files.len()
                    invariant
                        k <= files@.len(),
                        *self == (FileInfo::Multi { rootdir: self->rootdir, files: *files }),
                        decreases_to!(*self => *files),
                        sum == files_total(files@.subrange(0, k as int)),
                    decreases files.len() - k,
                {
                    proof {
                        vstd::std_specs::vec::axiom_vec_index_decreases(*files, k as int);
                        assert(files@.subrange(0, k + 1).drop_last() =~= files@.subrange(0, k as int));
                    }
                    let t = match files[k].checked_total() {
                        Some(t) => t,
                        None => {
                            proof {
                                lemma_files_total_prefix(files@, k + 1);
                            }
                            return None;
                        },
                    };
                    if t > u64::MAX - sum {
                        proof {
                            lemma_files_total_prefix(files@, k + 1);
                        }
                        return None;
                    }
                    sum = sum + t;
                    k = k + 1;
                }
                assert(files@.subrange(0, k as int) =~= files@);
                Some(sum)
            },
        }
    }
}

/// Where a file lies in the backing file.
#[derive(Debug, PartialEq, Eq)]
pub struct FileSpan {
    pub path: String,
    pub offset: u64,
    pub length: u64,
}

impl FileInfo {
    /// Where each file lies in the single backing file: one after another
    /// from offset 0, in the order of the layout. Nothing when a file of a
    /// multi-file layout is itself a directory, or the total size does not
    /// fit in 64 bits.
    pub fn file_spans(&self) -> (r: Option<Vec<FileSpan>>)
        ensures
            match *self {
                FileInfo::Single { filename, filelength } => r is Some && r->0@.len() == 1
                    && r->0@[0].path@ == filename@ && r->0@[0].offset == 0 && r->0@[0].length
                    == filelength,
                FileInfo::Multi { files, .. } => {
                    &&& r is Some <==> (forall|i: int|
                        0 <= i < files@.len() ==> #[trigger] files@[i] is Single) && files_total(
                        files@,
                    ) <= u64::MAX
                    &&& r is Some ==> r->0@.len() == files@.len() && forall|i: int|
                        0 <= i < files@.len() ==> {
                            &&& (#[trigger] r->0@[i]).path@ == files@[i]->Single_filename@
                            &&& r->0@[i].length == files@[i]->Single_filelength
                            &&& r->0@[i].offset == files_total(files@.subrange(0, i))
                        }
                },
            },
    {
        match self {
            FileInfo::Single { filename, filelength } => {
                let mut spans: Vec<FileSpan> = Vec::new();
                spans.push(FileSpan { path: filename.clone(), offset: 0, length: *filelength });
                Some(spans)
            },
            FileInfo::Multi { files, .. } => {
                let mut spans: Vec<FileSpan> = Vec::new();
                let mut offset: u64 = 0;
                let mut k: usize = 0;
                while k < files.len()
                    invariant
                        k <= files@.len(),
                        *self == (FileInfo::Multi { rootdir: self->rootdir, files: *files }),
                        forall|i: int| 0 <= i < k ==> #[trigger] files@[i] is Single,
                        offset == files_total(files@.subrange(0, k as int)),
                        spans@.len() == k,
                        forall|i: int|
                            0 <= i < k ==> {
                                &&& (#[trigger] spans@[i]).path@ == files@[i]->Single_filename@
                                &&& spans@[i].length == files@[i]->Single_filelength
                                &&& spans@[i].offset == files_total(files@.subrange(0, i))
                            },
                    decreases files.len() - k,
                {
                    proof {
                        assert(files@.subrange(0, k + 1).drop_last() =~= files@.subrange(0, k as int));
                        assert(files@.subrange(0, k + 1).last() == files@[k as int]);
                        lemma_files_total_prefix(files@, k + 1);
                    }
                    match &files[k] {
                        FileInfo::Single { filename, filelength } => {
                            assert(file_total(files@[k as int]) == *filelength);
                            if *filelength > u64::MAX - offset {
                                return None;
                            }
                            spans.push(
                                FileSpan { path: filename.clone(), offset, length: *filelength },
                            );
                            offset = offset + *filelength;
                        },
                        FileInfo::Multi { .. } => {
                            return None;
                        },
                    }
                    k = k + 1;
                }
                assert(files@.subrange(0, k as int) =~= files@);
                Some(spans)
            },
        }
    }
}

proof fn lemma_lookup_congruent(
    x: Seq<(Vec<u8>, BencodeValue)>,
    y: Seq<(Vec<u8>, BencodeValue)>,
    key: Seq<u8>,
)
    requires
        x.len() == y.len(),
        forall|i: int|
            0 <= i < x.len() ==> (#[trigger] x[i]).0@ == y[i].0@ && enc(x[i].1) == enc(y[i].1),
    ensures
        lookup(x, key) is Some <==> lookup(y, key) is Some,
        lookup(x, key) is Some ==> enc(lookup(x, key)->0) == enc(lookup(y, key)->0),
    decreases x.len(),
{
    if x.len() > 0 {
        assert(x[0].0@ == y[0].0@ && enc(x[0].1) == enc(y[0].1));
        let (xr, yr) = (x.drop_first(), y.drop_first());
        assert forall|i: int| 0 <= i < xr.len() implies (#[trigger] xr[i]).0@ == yr[i].0@ && enc(
            xr[i].1,
        ) == enc(yr[i].1) by {
            assert(xr[i] == x[i + 1] && yr[i] == y[i + 1]);
        }
        lemma_lookup_congruent(xr, yr, key);
    }
}

/// Values with the same encoding hold the same thing under each key: the
/// same integer, the same bytes, or values with the same encoding.
pub proof fn lemma_dict_get_congruent(a: BencodeValue, b: BencodeValue, key: Seq<u8>)
    requires
        enc(a) == enc(b),
    ensures
        dict_get(a, key) is Some <==> dict_get(b, key) is Some,
        dict_get(a, key) is Some ==> enc(dict_get(a, key)->0) == enc(dict_get(b, key)->0),
        int_at(a, key) == int_at(b, key),
        str_at(a, key) == str_at(b, key),
{
    lemma_enc_same_kind(a, b);
    if a is Dict {
        lemma_enc_dict_entries(a->Dict_0@, b->Dict_0@);
        lemma_lookup_congruent(a->Dict_0@, b->Dict_0@, key);
        if dict_get(a, key) is Some {
            lemma_enc_same_kind(dict_get(a, key)->0, dict_get(b, key)->0);
        }
    }
}

proof fn lemma_join_congruent(x: Seq<BencodeValue>, y: Seq<BencodeValue>)
    requires
        x.len() == y.len(),
        forall|i: int| 0 <= i < x.len() ==> enc(#[trigger] x[i]) == enc(y[i]),
    ensures
        join_segments(x) == join_segments(y),
    decreases x.len(),
{
    if x.len() > 0 {
        let (xr, yr) = (x.drop_last(), y.drop_last());
        assert forall|i: int| 0 <= i < xr.len() implies enc(#[trigger] xr[i]) == enc(yr[i]) by {
            assert(xr[i] == x[i] && yr[i] == y[i]);
        }
        lemma_join_congruent(xr, yr);
        assert(enc(x[x.len() - 1]) == enc(y[y.len() - 1]));
        lemma_enc_same_kind(x.last(), y.last());
    }
}

proof fn lemma_entry_congruent(a: BencodeValue, b: BencodeValue)
    requires
        enc(a) == enc(b),
    ensures
        entry_of(a) == entry_of(b),
{
    lemma_dict_get_congruent(a, b, key_length());
    lemma_dict_get_congruent(a, b, key_path());
    if dict_get(a, key_path()) is Some {
        let (pa, pb) = (dict_get(a, key_path())->0, dict_get(b, key_path())->0);
        lemma_enc_same_kind(pa, pb);
        if pa is List {
            lemma_enc_list_items(pa->List_0@, pb->List_0@);
            lemma_join_congruent(pa->List_0@, pb->List_0@);
        }
        assert(path_of(pa) == path_of(pb));
    }
}

proof fn lemma_entries_total_congruent(x: Seq<BencodeValue>, y: Seq<BencodeValue>)
    requires
        x.len() == y.len(),
        forall|i: int| 0 <= i < x.len() ==> entry_of(#[trigger] x[i]) == entry_of(y[i]),
    ensures
        entries_total(x) == entries_total(y),
    decreases x.len(),
{
    if x.len() > 0 {
        let (xr, yr) = (x.drop_last(), y.drop_last());
        assert forall|i: int| 0 <= i < xr.len() implies entry_of(#[trigger] xr[i]) == entry_of(
            yr[i],
        ) by {
            assert(xr[i] == x[i] && yr[i] == y[i]);
        }
        lemma_entries_total_congruent(xr, yr);
        assert(entry_of(x[x.len() - 1]) == entry_of(y[y.len() - 1]));
    }
}

/// Metafile values with the same encoding make the same torrent: whether
/// they are well formed, and what they describe, depend on the bytes alone.
pub proof fn lemma_meta_congruent(a: BencodeValue, b: BencodeValue)
    requires
        enc(a) == enc(b),
    ensures
        fields_ok(a) == fields_ok(b),
        meta_ok(a) == meta_ok(b),
        forall|m: MetaInfo| meta_matches(m, a) == meta_matches(m, b),
{
    lemma_dict_get_congruent(a, b, key_announce());
    lemma_dict_get_congruent(a, b, key_info());
    if dict_get(a, key_info()) is Some {
        lemma_enc_same_kind(dict_get(a, key_info())->0, dict_get(b, key_info())->0);
    }
    assert(info_of(a) is Some <==> info_of(b) is Some);
    let (ia, ib) = (info_of(a)->0, info_of(b)->0);
    if info_of(a) is Some {
        assert(enc(ia) == enc(ib));
        lemma_dict_get_congruent(ia, ib, key_piece_length());
        lemma_dict_get_congruent(ia, ib, key_pieces());
        lemma_dict_get_congruent(ia, ib, key_name());
        lemma_dict_get_congruent(ia, ib, key_length());
        lemma_dict_get_congruent(ia, ib, key_files());
        if dict_get(ia, key_files()) is Some {
            let (fa, fb) = (dict_get(ia, key_files())->0, dict_get(ib, key_files())->0);
            lemma_enc_same_kind(fa, fb);
            if fa is List {
                let (la, lb) = (fa->List_0@, fb->List_0@);
                lemma_enc_list_items(la, lb);
                assert forall|i: int| 0 <= i < la.len() implies entry_of(#[trigger] la[i])
                    == entry_of(lb[i]) by {
                    lemma_entry_congruent(la[i], lb[i]);
                }
                lemma_entries_total_congruent(la, lb);
            }
        }
        assert(files_of(ia) is Some <==> files_of(ib) is Some);
        if files_of(ia) is Some {
            let (la, lb) = (files_of(ia)->0, files_of(ib)->0);
            assert(la.len() == lb.len());
            assert(forall|i: int| 0 <= i < la.len() ==> entry_of(#[trigger] la[i]) == entry_of(lb[i]));
            assert(name_of(ia) == name_of(ib));
            assert((forall|i: int| 0 <= i < la.len() ==> #[trigger] entry_of(la[i]) is Some) == (
            forall|i: int| 0 <= i < lb.len() ==> #[trigger] entry_of(lb[i]) is Some)) by {
                if forall|i: int| 0 <= i < la.len() ==> #[trigger] entry_of(la[i]) is Some {
                    assert forall|i: int| 0 <= i < lb.len() implies #[trigger] entry_of(lb[i]) is Some by {
                        assert(entry_of(la[i]) == entry_of(lb[i]));
                    }
                }
                if forall|i: int| 0 <= i < lb.len() ==> #[trigger] entry_of(lb[i]) is Some {
                    assert forall|i: int| 0 <= i < la.len() implies #[trigger] entry_of(la[i]) is Some by {
                        assert(entry_of(la[i]) == entry_of(lb[i]));
                    }
                }
            }
            assert(fileinfo_ok(a) == fileinfo_ok(b));
            assert forall|m: MetaInfo| meta_matches(m, a) == meta_matches(m, b) by {
                assert(fileinfo_matches(m.file_info, a) == fileinfo_matches(m.file_info, b));
            }
        }
        assert(layout_total(a) == layout_total(b));
    }
}

proof fn lemma_lookup_index(d: Seq<(Vec<u8>, BencodeValue)>, key: Seq<u8>) -> (i: int)
    requires
        lookup(d, key) is Some,
    ensures
        0 <= i < d.len(),
        lookup(d, key) == Some(d[i].1),
    decreases d.len(),
{
    if d[0].0@ == key {
        0
    } else {
        let j = lemma_lookup_index(d.drop_first(), key);
        j + 1
    }
}

/// The info hash is the digest of bytes of the metafile itself: the
/// encoding of the `info` value stands in the metafile's bytes at the place
/// of that entry. So, where the metafile is canonical, the info hash is the
/// SHA-1 digest of the info dictionary's own bytes.
pub proof fn lemma_info_bytes_in_metafile(buf: Seq<u8>, v: BencodeValue)
    requires
        starts_with_at(buf, 0, enc(v)),
        dict_get(v, key_info()) is Some,
    ensures
        exists|s: int| starts_with_at(buf, s, enc(dict_get(v, key_info())->0)),
{
    let d = v->Dict_0@;
    let i = lemma_lookup_index(d, key_info());
    lemma_dict_at(buf, 0, d, i);
    let s: int = 1 + enc_dict(d.subrange(0, i)).len() + enc_str(d[i].0@).len() as int;
    assert(starts_with_at(buf, s, enc(dict_get(v, key_info())->0)));
}

} // verus!
