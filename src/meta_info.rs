//! The `.torrent` metadata model, read from a decoded document.
use vstd::prelude::*;
use crate::decode::decode;
use crate::error::{Error, ErrorKind};
use crate::grammar::spec_decode;
use crate::reader::{
    field, field_opt_int, field_opt_text, field_opt_text_list, field_opt_text_list_list,
    field_opt_u8, field_req_raw, field_req_text, field_req_text_list, field_req_usize, opt_int,
    opt_text, opt_text_list, opt_text_list_list, opt_text_view, opt_u8, req_raw, req_text,
    req_text_list, req_usize, string_lists_view, strings_view,
};
use crate::value::{text_bytes, SpecValue, Value};

verus! {

broadcast use vstd::std_specs::vec::group_vec_axioms, vstd::seq::group_seq_axioms;

/// The 20-byte blocks of a `pieces` byte string, in order.
pub open spec fn spec_blocks(b: Seq<u8>) -> Seq<Seq<u8>> {
    Seq::new(b.len() / 20, |i: int| b.subrange(20 * i, 20 * i + 20))
}

/// What a `pieces` field gives: its blocks when its length is a multiple of 20.
pub open spec fn spec_pieces(b: Seq<u8>) -> Result<Seq<Seq<u8>>, ErrorKind> {
    if b.len() % 20 == 0 {
        Ok(spec_blocks(b))
    } else {
        Err(ErrorKind::Custom)
    }
}

/// The SHA-1 hashes of the pieces of a torrent, 20 bytes each.
#[derive(Debug)]
pub struct Pieces {
    bytes: Vec<[u8; 20]>,
}

impl Pieces {
    pub closed spec fn blocks(&self) -> Seq<Seq<u8>> {
        Seq::new(self.bytes@.len(), |i: int| self.bytes@[i]@)
    }

    /// Splits a `pieces` byte string into its 20-byte blocks; fails when its
    /// length is not a multiple of 20.
    pub fn from_bytes(v: &[u8]) -> (r: Result<Pieces, Error>)
        ensures
            r is Ok <==> v@.len() % 20 == 0,
            r matches Ok(p) ==> spec_pieces(v@) == Ok::<Seq<Seq<u8>>, ErrorKind>(p.blocks()),
            r matches Err(e) ==> spec_pieces(v@) == Err::<Seq<Seq<u8>>, ErrorKind>(e.spec_kind()),
    {
        if v.len() % 20 != 0 {
            return Err(Error::Custom("Invalid Torrent File - Pieces should be in 20 byte chunks always".to_string()));
        }
        let mut bytes: Vec<[u8; 20]> = Vec::new();
        let mut off: usize = 0;
        while off < v.len()
            invariant
                v@.len() % 20 == 0,
                off % 20 == 0,
                off <= v@.len(),
                bytes@.len() == off / 20,
                forall|i: int| 0 <= i < bytes@.len() ==> #[trigger] bytes@[i]@ == v@.subrange(20 * i, 20 * i + 20),
            decreases v@.len() - off,
        {
            let mut blk: [u8; 20] = [0u8; 20];
            let mut j: usize = 0;
            while j < 20
                invariant
                    off + 20 <= v@.len(),
                    v@.len() <= usize::MAX,
                    0 <= j <= 20,
                    forall|t: int| 0 <= t < j ==> blk@[t] == v@[off + t],
                decreases 20 - j,
            {
                blk[j] = v[off + j];
                j = j + 1;
            }
            assert(blk@ =~= v@.subrange(off as int, off + 20));
            bytes.push(blk);
            off = off + 20;
        }
        let p = Pieces { bytes };
        assert(p.blocks() =~= spec_blocks(v@));
        Ok(p)
    }

    /// Number of pieces.
    pub fn len(&self) -> (r: usize)
        ensures
            r == self.blocks().len(),
    {
        self.bytes.len()
    }

    /// The blocks, in order.
    pub fn as_slice(&self) -> (r: &[[u8; 20]])
        ensures
            r@.len() == self.blocks().len(),
            forall|i: int| 0 <= i < r@.len() ==> #[trigger] r@[i]@ == self.blocks()[i],
    {
        self.bytes.as_slice()
    }
}

pub open spec fn attr_padding() -> Seq<u8> {
    seq![112u8]
}

/// The flags of a file entry (BEP 47). Unknown flags are kept as given.
#[derive(Debug)]
pub enum FileAttr {
    Padding,
    Symlink,
    Executable,
    Hidden,
    Other(String),
}

impl FileAttr {
    /// The flag text that the attribute stands for.
    pub open spec fn spec_text(&self) -> Seq<u8> {
        match self {
            FileAttr::Padding => seq![112u8],
            FileAttr::Symlink => seq![108u8],
            FileAttr::Executable => seq![120u8],
            FileAttr::Hidden => seq![104u8],
            FileAttr::Other(s) => text_bytes(*s),
        }
    }

    /// Classifies an attribute string: `p`, `l`, `x` and `h` are known flags.
    pub fn from_text(s: String) -> (r: FileAttr)
        ensures
            r.spec_text() == text_bytes(s),
            r is Padding <==> text_bytes(s) == attr_padding(),
    {
        let b = s.as_str().as_bytes();
        if b.len() == 1 {
            let c = b[0];
            assert(b@ =~= seq![c]);
            if c == 112u8 {
                return FileAttr::Padding;
            } else if c == 108u8 {
                return FileAttr::Symlink;
            } else if c == 120u8 {
                return FileAttr::Executable;
            } else if c == 104u8 {
                return FileAttr::Hidden;
            }
        }
        FileAttr::Other(s)
    }

    pub fn is_padding_file(&self) -> (r: bool)
        ensures
            r == (self.spec_text() == attr_padding()),
    {
        proof {
            assert(self.spec_text().len() == 1 ==> self.spec_text()[0] == 112u8 ==> self.spec_text() =~= attr_padding());
            assert(attr_padding()[0] == 112u8);
            assert(seq![108u8][0] == 108u8);
            assert(seq![120u8][0] == 120u8);
            assert(seq![104u8][0] == 104u8);
        }
        match self {
            FileAttr::Padding => true,
            FileAttr::Other(s) => {
                let b = s.as_str().as_bytes();
                if b.len() == 1 && b[0] == 112u8 {
                    assert(b@ =~= attr_padding());
                    true
                } else {
                    false
                }
            },
            _ => false,
        }
    }
}

pub open spec fn opt_attr_view(a: Option<FileAttr>) -> Option<Seq<u8>> {
    match a {
        Some(x) => Some(x.spec_text()),
        None => None,
    }
}

pub struct SpecMultiFile {
    pub length: nat,
    pub md5sum: Option<Seq<u8>>,
    pub path: Seq<Seq<u8>>,
    pub attr: Option<Seq<u8>>,
}

pub enum SpecFiles {
    Single { length: nat, md5sum: Option<Seq<u8>>, attr: Option<Seq<u8>> },
    Multi { files: Seq<SpecMultiFile> },
}

pub struct SpecInfo {
    pub piece_length: nat,
    pub pieces: Seq<Seq<u8>>,
    pub private: Option<nat>,
    pub files: SpecFiles,
    pub name: Seq<u8>,
}

pub struct SpecMeta {
    pub info: SpecInfo,
    pub announce: Option<Seq<u8>>,
    pub url_list: Option<Seq<Seq<u8>>>,
    pub announce_list: Option<Seq<Seq<Seq<u8>>>>,
    pub title: Option<Seq<u8>>,
    pub creation_date: Option<int>,
    pub comment: Option<Seq<u8>>,
    pub created_by: Option<Seq<u8>>,
    pub encoding: Option<Seq<u8>>,
}

/// One entry of a multi-file `files` list.
pub open spec fn spec_multi_file(v: SpecValue) -> Result<SpecMultiFile, ErrorKind> {
    if !(v is Dict) {
        Err(ErrorKind::InvalidType)
    } else {
        match req_usize(field(v, "length")) {
            Err(k) => Err(k),
            Ok(length) => match opt_text(field(v, "md5sum")) {
                Err(k) => Err(k),
                Ok(md5sum) => match req_text_list(field(v, "path")) {
                    Err(k) => Err(k),
                    Ok(path) => if path.len() == 0 {
                        Err(ErrorKind::InvalidLength)
                    } else { match opt_text(field(v, "attr")) {
                        Err(k) => Err(k),
                        Ok(attr) => Ok(SpecMultiFile { length, md5sum, path, attr }),
                    } },
                },
            },
        }
    }
}

pub open spec fn spec_multi_files(l: Seq<SpecValue>) -> Result<Seq<SpecMultiFile>, ErrorKind>
    decreases l.len(),
{
    if l.len() == 0 {
        Ok(Seq::empty())
    } else {
        match spec_multi_files(l.drop_last()) {
            Err(k) => Err(k),
            Ok(p) => match spec_multi_file(l.last()) {
                Err(k) => Err(k),
                Ok(f) => Ok(p.push(f)),
            },
        }
    }
}

pub open spec fn spec_single(info: SpecValue) -> Result<SpecFiles, ErrorKind> {
    match req_usize(field(info, "length")) {
        Err(k) => Err(k),
        Ok(length) => match opt_text(field(info, "md5sum")) {
            Err(k) => Err(k),
            Ok(md5sum) => match opt_text(field(info, "attr")) {
                Err(k) => Err(k),
                Ok(attr) => Ok(SpecFiles::Single { length, md5sum, attr }),
            },
        },
    }
}

pub open spec fn spec_multi(info: SpecValue) -> Result<SpecFiles, ErrorKind> {
    match field(info, "files") {
        Some(SpecValue::List(l)) => match spec_multi_files(l) {
            Err(k) => Err(k),
            Ok(files) => Ok(SpecFiles::Multi { files }),
        },
        Some(_) => Err(ErrorKind::InvalidType),
        None => Err(ErrorKind::MissingField),
    }
}

/// The files of an info dictionary: a single file when `length` reads, else
/// the `files` list; a document that is neither fails.
pub open spec fn spec_files(info: SpecValue) -> Result<SpecFiles, ErrorKind> {
    if spec_single(info) is Ok {
        spec_single(info)
    } else if spec_multi(info) is Ok {
        spec_multi(info)
    } else {
        Err(ErrorKind::Custom)
    }
}

pub open spec fn spec_info(v: SpecValue) -> Result<SpecInfo, ErrorKind> {
    if !(v is Dict) {
        Err(ErrorKind::InvalidType)
    } else {
        match req_usize(field(v, "piece length")) {
            Err(k) => Err(k),
            Ok(piece_length) => match req_raw(field(v, "pieces")) {
                Err(k) => Err(k),
                Ok(raw) => match spec_pieces(raw) {
                    Err(k) => Err(k),
                    Ok(pieces) => match opt_u8(field(v, "private")) {
                        Err(k) => Err(k),
                        Ok(private) => match spec_files(v) {
                            Err(k) => Err(k),
                            Ok(files) => match req_text(field(v, "name")) {
                                Err(k) => Err(k),
                                Ok(name) => Ok(SpecInfo { piece_length, pieces, private, files, name }),
                            },
                        },
                    },
                },
            },
        }
    }
}

/// What a decoded `.torrent` document describes.
pub open spec fn spec_meta(v: SpecValue) -> Result<SpecMeta, ErrorKind> {
    if !(v is Dict) {
        Err(ErrorKind::InvalidType)
    } else {
        match field(v, "info") {
            None => Err(ErrorKind::MissingField),
            Some(iv) => match spec_info(iv) {
                Err(k) => Err(k),
                Ok(info) => match opt_text(field(v, "announce")) {
                    Err(k) => Err(k),
                    Ok(announce) => match opt_text_list(field(v, "url-list")) {
                        Err(k) => Err(k),
                        Ok(url_list) => match opt_text_list_list(field(v, "announce-list")) {
                            Err(k) => Err(k),
                            Ok(announce_list) => match opt_text(field(v, "title")) {
                                Err(k) => Err(k),
                                Ok(title) => match opt_int(field(v, "creation date")) {
                                    Err(k) => Err(k),
                                    Ok(creation_date) => match opt_text(field(v, "comment")) {
                                        Err(k) => Err(k),
                                        Ok(comment) => match opt_text(field(v, "created by")) {
                                            Err(k) => Err(k),
                                            Ok(created_by) => match opt_text(field(v, "encoding")) {
                                                Err(k) => Err(k),
                                                Ok(encoding) => Ok(
                                                    SpecMeta {
                                                        info,
                                                        announce,
                                                        url_list,
                                                        announce_list,
                                                        title,
                                                        creation_date,
                                                        comment,
                                                        created_by,
                                                        encoding,
                                                    },
                                                ),
                                            },
                                        },
                                    },
                                },
                            },
                        },
                    },
                },
            },
        }
    }
}


/// One file of a multi-file torrent.
#[derive(Debug)]
pub struct MultiFiles {
    pub length: usize,
    pub md5sum: Option<String>,
    pub path: Vec<String>,
    pub attr: Option<FileAttr>,
}

impl MultiFiles {
    pub open spec fn view(&self) -> SpecMultiFile {
        SpecMultiFile {
            length: self.length as nat,
            md5sum: opt_text_view(self.md5sum),
            path: strings_view(self.path@),
            attr: opt_attr_view(self.attr),
        }
    }

    /// Whether the entry is a padding file.
    pub fn is_padding(&self) -> (r: bool)
        ensures
            r == (self.view().attr == Some(attr_padding())),
    {
        match &self.attr {
            Some(a) => a.is_padding_file(),
            None => false,
        }
    }
}

/// The files of a torrent: one file, or a list of files under a directory.
#[derive(Debug)]
pub enum Files {
    SingleFile { length: usize, md5sum: Option<String>, attr: Option<FileAttr> },
    MultiFile { files: Vec<MultiFiles> },
}

pub open spec fn multi_files_view(s: Seq<MultiFiles>) -> Seq<SpecMultiFile> {
    Seq::new(s.len(), |i: int| s[i].view())
}

impl Files {
    pub open spec fn view(&self) -> SpecFiles {
        match self {
            Files::SingleFile { length, md5sum, attr } => SpecFiles::Single {
                length: *length as nat,
                md5sum: opt_text_view(*md5sum),
                attr: opt_attr_view(*attr),
            },
            Files::MultiFile { files } => SpecFiles::Multi { files: multi_files_view(files@) },
        }
    }
}

fn opt_attr(o: Option<String>) -> (r: Option<FileAttr>)
    ensures
        opt_attr_view(r) == opt_text_view(o),
{
    match o {
        Some(s) => Some(FileAttr::from_text(s)),
        None => None,
    }
}

fn read_multi_file(v: &Value) -> (r: Result<MultiFiles, Error>)
    ensures
        r matches Ok(f) ==> spec_multi_file(v@) == Ok::<SpecMultiFile, ErrorKind>(f.view()),
        r matches Err(e) ==> spec_multi_file(v@) == Err::<SpecMultiFile, ErrorKind>(e.spec_kind()),
{
    if !(matches!(v, Value::Dictionary(_))) {
        return Err(Error::InvalidType("Expected a file dictionary".to_string()));
    }
    let length = field_req_usize(v, "length")?;
    let md5sum = field_opt_text(v, "md5sum")?;
    let path = field_req_text_list(v, "path")?;
    if path.len() == 0 {
        return Err(Error::InvalidLength("A file path needs at least one segment".to_string()));
    }
    let attr = opt_attr(field_opt_text(v, "attr")?);
    Ok(MultiFiles { length, md5sum, path, attr })
}

proof fn lemma_multi_files_prefix_err(l: Seq<SpecValue>, k: int)
    requires
        0 <= k <= l.len(),
        spec_multi_files(l.subrange(0, k)) is Err,
    ensures
        spec_multi_files(l) == spec_multi_files(l.subrange(0, k)),
    decreases l.len() - k,
{
    if k == l.len() {
        assert(l.subrange(0, k) =~= l);
    } else {
        assert(l.subrange(0, k + 1).drop_last() =~= l.subrange(0, k));
        lemma_multi_files_prefix_err(l, k + 1);
    }
}

fn read_multi(info: &Value) -> (r: Result<Files, Error>)
    ensures
        r matches Ok(f) ==> spec_multi(info@) == Ok::<SpecFiles, ErrorKind>(f.view()),
        r matches Err(e) ==> spec_multi(info@) == Err::<SpecFiles, ErrorKind>(e.spec_kind()),
{
    let l = match info.get_from_dictionary("files") {
        None => {
            return Err(Error::MissingField("Missing Field: `files`".to_string()));
        },
        Some(Value::List(l)) => l,
        Some(_) => {
            return Err(Error::InvalidType("Expected a list of files".to_string()));
        },
    };
    proof {
        crate::value::lemma_view_list(l@);
    }
    let ghost lv = crate::value::view_list(l@);
    let mut files: Vec<MultiFiles> = Vec::new();
    let mut i: usize = 0;
    assert(lv.subrange(0, 0) =~= Seq::<SpecValue>::empty());
    assert(multi_files_view(files@) =~= Seq::<SpecMultiFile>::empty());
    while i < l.len()
        invariant
            field(info@, "files") == Some(SpecValue::List(lv)),
            lv == crate::value::view_list(l@),
            lv.len() == l@.len(),
            forall|j: int| 0 <= j < l@.len() ==> #[trigger] lv[j] == l@[j]@,
            0 <= i <= l@.len(),
            spec_multi_files(lv.subrange(0, i as int)) == Ok::<Seq<SpecMultiFile>, ErrorKind>(multi_files_view(files@)),
        decreases l@.len() - i,
    {
        assert(lv.subrange(0, i + 1).drop_last() =~= lv.subrange(0, i as int));
        assert(lv.subrange(0, i + 1).last() == l@[i as int]@);
        let f = match read_multi_file(&l[i]) {
            Ok(f) => f,
            Err(e) => {
                proof {
                    assert(lv.subrange(0, l@.len() as int) =~= lv);
                    lemma_multi_files_prefix_err(lv, i as int + 1);
                }
                return Err(e);
            },
        };
        let ghost prev = files@;
        let ghost fv = f.view();
        files.push(f);
        assert(multi_files_view(files@) =~= multi_files_view(prev).push(fv));
        i = i + 1;
    }
    assert(lv.subrange(0, l@.len() as int) =~= lv);
    Ok(Files::MultiFile { files })
}

fn read_single(info: &Value) -> (r: Result<Files, Error>)
    ensures
        r matches Ok(f) ==> spec_single(info@) == Ok::<SpecFiles, ErrorKind>(f.view()),
        r matches Err(e) ==> spec_single(info@) == Err::<SpecFiles, ErrorKind>(e.spec_kind()),
{
    let length = field_req_usize(info, "length")?;
    let md5sum = field_opt_text(info, "md5sum")?;
    let attr = opt_attr(field_opt_text(info, "attr")?);
    Ok(Files::SingleFile { length, md5sum, attr })
}

fn read_files(info: &Value) -> (r: Result<Files, Error>)
    ensures
        r matches Ok(f) ==> spec_files(info@) == Ok::<SpecFiles, ErrorKind>(f.view()),
        r matches Err(e) ==> spec_files(info@) == Err::<SpecFiles, ErrorKind>(e.spec_kind()),
{
    match read_single(info) {
        Ok(f) => Ok(f),
        Err(_) => match read_multi(info) {
            Ok(f) => Ok(f),
            Err(_) => Err(Error::Custom("data did not match any variant of untagged enum Files".to_string())),
        },
    }
}

/// The `info` dictionary of a torrent.
#[derive(Debug)]
pub struct Info {
    pub piece_length: usize,
    pub pieces: Pieces,
    pub private: Option<u8>,
    pub files: Files,
    pub name: String,
}

impl Info {
    pub open spec fn view(&self) -> SpecInfo {
        SpecInfo {
            piece_length: self.piece_length as nat,
            pieces: self.pieces.blocks(),
            private: match self.private {
                Some(p) => Some(p as nat),
                None => None,
            },
            files: self.files.view(),
            name: text_bytes(self.name),
        }
    }

    /// Reads an info dictionary.
    pub fn from_value(v: &Value) -> (r: Result<Info, Error>)
        ensures
            r matches Ok(i) ==> spec_info(v@) == Ok::<SpecInfo, ErrorKind>(i.view()),
            r matches Err(e) ==> spec_info(v@) == Err::<SpecInfo, ErrorKind>(e.spec_kind()),
    {
        if !(matches!(v, Value::Dictionary(_))) {
            return Err(Error::InvalidType("Expected the info dictionary".to_string()));
        }
        let piece_length = field_req_usize(v, "piece length")?;
        let raw = field_req_raw(v, "pieces")?;
        let pieces = Pieces::from_bytes(raw)?;
        let private = field_opt_u8(v, "private")?;
        let files = read_files(v)?;
        let name = field_req_text(v, "name")?;
        Ok(Info { piece_length, pieces, private, files, name })
    }

    /// Name of the file, or of the top directory.
    pub fn name(&self) -> (r: &str)
        ensures
            r@ == self.name@,
    {
        self.name.as_str()
    }

    /// Total size that the pieces cover.
    pub fn torrent_size(&self) -> (r: usize)
        requires
            self.pieces.blocks().len() * self.piece_length <= usize::MAX,
        ensures
            r == self.pieces.blocks().len() * self.piece_length,
    {
        self.pieces.len() * self.piece_length
    }
}

/// Number of URLs over all tiers.
pub open spec fn tier_total(l: Seq<Vec<String>>) -> nat
    decreases l.len(),
{
    if l.len() == 0 {
        0
    } else {
        tier_total(l.drop_last()) + l.last()@.len()
    }
}

proof fn lemma_tier_total_prefix(l: Seq<Vec<String>>, k: int)
    requires
        0 <= k <= l.len(),
    ensures
        tier_total(l.subrange(0, k)) <= tier_total(l),
    decreases l.len() - k,
{
    if k < l.len() {
        assert(l.subrange(0, k + 1).drop_last() =~= l.subrange(0, k));
        lemma_tier_total_prefix(l, k + 1);
    } else {
        assert(l.subrange(0, k) =~= l);
    }
}

/// A `.torrent` file.
#[derive(Debug)]
pub struct MetaInfo {
    pub info: Info,
    pub announce: Option<String>,
    pub url_list: Option<Vec<String>>,
    pub announce_list: Option<Vec<Vec<String>>>,
    pub title: Option<String>,
    pub creation_date: Option<i64>,
    pub comment: Option<String>,
    pub created_by: Option<String>,
    pub encoding: Option<String>,
}

impl MetaInfo {
    pub open spec fn view(&self) -> SpecMeta {
        SpecMeta {
            info: self.info.view(),
            announce: opt_text_view(self.announce),
            url_list: match self.url_list {
                Some(l) => Some(strings_view(l@)),
                None => None,
            },
            announce_list: match self.announce_list {
                Some(l) => Some(string_lists_view(l@)),
                None => None,
            },
            title: opt_text_view(self.title),
            creation_date: match self.creation_date {
                Some(d) => Some(d as int),
                None => None,
            },
            comment: opt_text_view(self.comment),
            created_by: opt_text_view(self.created_by),
            encoding: opt_text_view(self.encoding),
        }
    }

    /// Reads a decoded `.torrent` document.
    pub fn from_value(v: &Value) -> (r: Result<MetaInfo, Error>)
        ensures
            r matches Ok(m) ==> spec_meta(v@) == Ok::<SpecMeta, ErrorKind>(m.view()),
            r matches Err(e) ==> spec_meta(v@) == Err::<SpecMeta, ErrorKind>(e.spec_kind()),
    {
        if !(matches!(v, Value::Dictionary(_))) {
            return Err(Error::InvalidType("Expected a torrent dictionary".to_string()));
        }
        let info = match v.get_from_dictionary("info") {
            None => {
                return Err(Error::MissingField("Missing Field: `info`".to_string()));
            },
            Some(iv) => Info::from_value(iv)?,
        };
        let announce = field_opt_text(v, "announce")?;
        let url_list = field_opt_text_list(v, "url-list")?;
        let announce_list = field_opt_text_list_list(v, "announce-list")?;
        let title = field_opt_text(v, "title")?;
        let creation_date = field_opt_int(v, "creation date")?;
        let comment = field_opt_text(v, "comment")?;
        let created_by = field_opt_text(v, "created by")?;
        let encoding = field_opt_text(v, "encoding")?;
        Ok(MetaInfo {
            info,
            announce,
            url_list,
            announce_list,
            title,
            creation_date,
            comment,
            created_by,
            encoding,
        })
    }

    pub fn title(&self) -> (r: Option<&String>)
        ensures
            match r {
                Some(x) => self.title == Some(*x),
                None => self.title is None,
            },
    {
        self.title.as_ref()
    }

    pub fn number_of_pieces(&self) -> (r: usize)
        ensures
            r == self.info.pieces.blocks().len(),
    {
        self.info.pieces.len()
    }

    pub fn creation_date_raw(&self) -> (r: Option<i64>)
        ensures
            r == self.creation_date,
    {
        self.creation_date
    }

    pub fn comment(&self) -> (r: Option<&String>)
        ensures
            match r {
                Some(x) => self.comment == Some(*x),
                None => self.comment is None,
            },
    {
        self.comment.as_ref()
    }

    pub fn created_by(&self) -> (r: Option<&String>)
        ensures
            match r {
                Some(x) => self.created_by == Some(*x),
                None => self.created_by is None,
            },
    {
        self.created_by.as_ref()
    }

    pub fn encoding(&self) -> (r: Option<&String>)
        ensures
            match r {
                Some(x) => self.encoding == Some(*x),
                None => self.encoding is None,
            },
    {
        self.encoding.as_ref()
    }

    pub fn info(&self) -> (r: &Info)
        ensures
            r == &self.info,
    {
        &self.info
    }

    pub fn announce(&self) -> (r: Option<&String>)
        ensures
            match r {
                Some(x) => self.announce == Some(*x),
                None => self.announce is None,
            },
    {
        self.announce.as_ref()
    }

    pub fn url_list(&self) -> (r: Option<&Vec<String>>)
        ensures
            match r {
                Some(x) => self.url_list == Some(*x),
                None => self.url_list is None,
            },
    {
        self.url_list.as_ref()
    }

    pub fn announce_list(&self) -> (r: Option<&Vec<Vec<String>>>)
        ensures
            match r {
                Some(x) => self.announce_list == Some(*x),
                None => self.announce_list is None,
            },
    {
        self.announce_list.as_ref()
    }

    pub fn piece_length(&self) -> (r: usize)
        ensures
            r == self.info.piece_length,
    {
        self.info.piece_length
    }

    /// Total size that the pieces cover.
    pub fn size(&self) -> (r: usize)
        requires
            self.info.pieces.blocks().len() * self.info.piece_length <= usize::MAX,
        ensures
            r == self.info.pieces.blocks().len() * self.info.piece_length,
    {
        self.info.torrent_size()
    }

    /// The file tree of the torrent.
    pub fn build_file_tree(&self) -> (r: crate::files::FileTree)
        requires
            self.info.files is MultiFile ==> crate::files::non_padding_total(self.info.files.view()->files) <= usize::MAX,
        ensures
            crate::files::wf_node(r.node),
            self.info.files is SingleFile ==> r.num_of_files == 1 && r.node is File
                && r.node->File_name@ == self.info.name@ && r.node->File_length == self.info.files->SingleFile_length,
            self.info.files is MultiFile ==> r.num_of_files == crate::files::non_padding_count(self.info.files.view()->files)
                && r.node is Dir && r.node->Dir_parent@ == self.info.name@
                && crate::files::node_len(r.node) <= crate::files::non_padding_total(self.info.files.view()->files),
            self.info.files is MultiFile && crate::files::independent(self.info.files->MultiFile_files@) ==> forall|j: int|
                0 <= j < self.info.files->MultiFile_files@.len() && crate::files::placed(#[trigger] self.info.files->MultiFile_files@[j])
                    ==> crate::files::file_at(r.node, crate::files::entry_names(self.info.files->MultiFile_files@[j]))
                        == Some(self.info.files->MultiFile_files@[j].length as nat),
            self.info.files is MultiFile && crate::files::well_placed(self.info.files->MultiFile_files@)
                ==> crate::files::node_len(r.node) == crate::files::non_padding_total(self.info.files.view()->files),
            self.info.files is MultiFile ==> forall|d: Seq<char>| #[trigger] crate::files::share_first(self.info.files->MultiFile_files@, d)
                ==> r.node->Dir_children@.len() == 1 && r.node->Dir_children@[0].0@ == d,
            self.info.files is MultiFile ==> forall|q: Seq<Seq<char>>| q.len() > 0 && #[trigger] crate::files::node_at(r.node, q) ==> exists|j: int|
                0 <= j < self.info.files->MultiFile_files@.len() && crate::files::placed(self.info.files->MultiFile_files@[j])
                    && crate::files::is_prefix(q, crate::files::entry_names(self.info.files->MultiFile_files@[j])),
            self.info.files is MultiFile ==> forall|q: Seq<Seq<char>>| #[trigger] crate::files::file_at(r.node, q) is Some ==> exists|j: int|
                0 <= j < self.info.files->MultiFile_files@.len() && crate::files::placed(self.info.files->MultiFile_files@[j])
                    && crate::files::entry_names(self.info.files->MultiFile_files@[j]) == q,
    {
        self.info.build_file_tree()
    }

    /// Number of announce URLs: `announce`, and every URL of `announce-list`.
    pub fn number_of_trackers(&self) -> (r: usize)
        requires
            1 + tier_total(match self.announce_list {
                Some(l) => l@,
                None => Seq::empty(),
            }) <= usize::MAX,
        ensures
            r == (if self.announce is Some { 1int } else { 0int }) + tier_total(match self.announce_list {
                Some(l) => l@,
                None => Seq::empty(),
            }),
    {
        let mut trackers: usize = if self.announce.is_some() { 1 } else { 0 };
        match &self.announce_list {
            Some(list) => {
                let mut i: usize = 0;
                assert(list@.subrange(0, 0) =~= Seq::<Vec<String>>::empty());
                while i < list.len()
                    invariant
                        self.announce_list == Some(*list),
                        1 + tier_total(list@) <= usize::MAX,
                        0 <= i <= list@.len(),
                        trackers == (if self.announce is Some { 1int } else { 0int }) + tier_total(list@.subrange(0, i as int)),
                    decreases list@.len() - i,
                {
                    proof {
                        assert(list@.subrange(0, i + 1).drop_last() =~= list@.subrange(0, i as int));
                        lemma_tier_total_prefix(list@, i as int + 1);
                    }
                    trackers = trackers + list[i].len();
                    i = i + 1;
                }
                assert(list@.subrange(0, list@.len() as int) =~= list@);
            },
            None => {},
        }
        trackers
    }

    /// Number of HTTP seeder URLs.
    pub fn number_of_httpsources(&self) -> (r: usize)
        ensures
            r == match self.url_list {
                Some(l) => l@.len(),
                None => 0,
            },
    {
        match &self.url_list {
            Some(l) => l.len(),
            None => 0,
        }
    }

    /// Decodes and reads the bytes of a `.torrent` file.
    pub fn from_bytes(bytes: &[u8]) -> (r: Result<MetaInfo, Error>)
        ensures
            r matches Ok(m) ==> exists|v: SpecValue|
                spec_decode(bytes@) == Ok::<SpecValue, ErrorKind>(v) && spec_meta(v) == Ok::<SpecMeta, ErrorKind>(m.view()),
            r is Err ==> spec_decode(bytes@) is Err || (exists|v: SpecValue|
                spec_decode(bytes@) == Ok::<SpecValue, ErrorKind>(v) && spec_meta(v) is Err),
    {
        let v = decode(bytes)?;
        MetaInfo::from_value(&v)
    }
}

} // verus!
