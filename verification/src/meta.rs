//! The meta page: page zero of every file.
//!
//! Magic, root, number of pages, height, number of pages that belong to the base file, and the
//! path of the base file behind its length.

use vstd::prelude::*;
use vstd::slice::slice_subrange;
use vstd::utf8::{
    decode_utf8, encode_utf8, encode_utf8_decode_utf8, encode_utf8_valid_utf8, valid_utf8,
};

use crate::bits::packed_len;
use crate::byte::{overwrite, read_u32, u32_at, u32_bytes, write_bytes, write_u32};
use crate::error::{Error, Fault, Result};
use crate::layout::PAGE_SIZE;

verus! {

/// Where the path of the base file starts.
pub const PATH_AT: usize = 28;

/// What the meta page says.
pub struct MetaModel {
    pub root: u32,
    pub num_pages: u32,
    pub height: u32,
    pub base_offset: u32,
    pub base_path: Option<Seq<char>>,
}

/// Decoded meta page (page 0).
#[derive(Debug)]
pub struct Meta {
    pub root: u32,
    pub num_pages: u32,
    /// Tree height: 0 = empty, 1 = root is leaf, 2+ = has internal levels.
    pub height: u32,
    /// Page ids below this belong to the base file (0 for standalone).
    pub base_offset: u32,
    pub base_path: Option<String>,
}

impl View for Meta {
    type V = MetaModel;

    open spec fn view(&self) -> MetaModel {
        MetaModel {
            root: self.root,
            num_pages: self.num_pages,
            height: self.height,
            base_offset: self.base_offset,
            base_path: match self.base_path {
                Some(p) => Some(p@),
                None => None,
            },
        }
    }
}

/// `SIMPLEDB`.
pub open spec fn file_magic() -> Seq<u8> {
    seq![83u8, 73u8, 77u8, 80u8, 76u8, 69u8, 68u8, 66u8]
}

/// The bytes of the path, as they stand in the page.
pub open spec fn path_bytes(p: Option<Seq<char>>) -> Seq<u8> {
    match p {
        Some(p) => encode_utf8(p),
        None => Seq::empty(),
    }
}

/// The path fits into the page.
pub open spec fn path_fits(p: Option<Seq<char>>) -> bool {
    PATH_AT + path_bytes(p).len() <= PAGE_SIZE
}

/// A path, where there is one, is not empty.
pub open spec fn path_named(p: Option<Seq<char>>) -> bool {
    p matches Some(p) ==> p.len() > 0
}

/// The bytes of the meta page.
pub open spec fn encoded(m: MetaModel) -> Seq<u8> {
    let zero = Seq::new(PAGE_SIZE as nat, |i: int| 0u8);
    let b = overwrite(zero, 0, file_magic());
    let b = overwrite(b, 8, u32_bytes(m.root));
    let b = overwrite(b, 12, u32_bytes(m.num_pages));
    let b = overwrite(b, 16, u32_bytes(m.height));
    let b = overwrite(b, 20, u32_bytes(m.base_offset));
    let b = overwrite(b, 24, u32_bytes(path_bytes(m.base_path).len() as u32));
    overwrite(b, PATH_AT as int, path_bytes(m.base_path))
}

/// The page starts with the magic.
pub open spec fn is_meta(b: Seq<u8>) -> bool {
    b.take(8) == file_magic()
}

/// Where the path in the page ends.
pub open spec fn path_end(b: Seq<u8>) -> int {
    PATH_AT + u32_at(b, 24)
}

/// What the replacement of malformed parts makes of text bytes.
pub uninterp spec fn lossy_text(bytes: Seq<u8>) -> Seq<char>;

/// The page is a meta page and says `m`.
pub open spec fn decodes(b: Seq<u8>, m: MetaModel) -> bool {
    let path = b.subrange(PATH_AT as int, path_end(b));
    &&& is_meta(b)
    &&& path_end(b) <= PAGE_SIZE
    &&& m.root == u32_at(b, 8)
    &&& m.num_pages == u32_at(b, 12)
    &&& m.height == u32_at(b, 16)
    &&& m.base_offset == u32_at(b, 20)
    &&& match m.base_path {
        Some(p) => {
            &&& path.len() > 0
            &&& p == if valid_utf8(path) {
                decode_utf8(path)
            } else {
                lossy_text(path)
            }
        },
        None => path.len() == 0,
    }
}

/// `String::from_utf8_lossy`: text bytes as a string, malformed parts replaced. Well-formed
/// text is taken as it is; what malformed text becomes depends on the bytes alone and is only
/// named here.
#[verifier::external_body]
fn text_from_bytes(bytes: &[u8]) -> (s: String)
    ensures
        s@ == lossy_text(bytes@),
        valid_utf8(bytes@) ==> s@ == decode_utf8(bytes@),
{
    String::from_utf8_lossy(bytes).into_owned()
}

impl Meta {
    /// The bytes of the meta page.
    #[verifier::spinoff_prover]
    #[verifier::rlimit(60)]
    pub fn encode(&self) -> (buf: Vec<u8>)
        requires
            path_fits(self@.base_path),
        ensures
            buf@ == encoded(self@),
    {
        let mut buf: Vec<u8> = vec![0u8;PAGE_SIZE];
        let magic: Vec<u8> = vec![83u8, 73u8, 77u8, 80u8, 76u8, 69u8, 68u8, 66u8];
        assert(magic@ =~= file_magic());
        assert(buf@ =~= Seq::new(PAGE_SIZE as nat, |i: int| 0u8));
        write_bytes(&mut buf, 0, magic.as_slice());
        write_u32(&mut buf, 8, self.root);
        write_u32(&mut buf, 12, self.num_pages);
        write_u32(&mut buf, 16, self.height);
        write_u32(&mut buf, 20, self.base_offset);
        match &self.base_path {
            Some(path) => {
                let bytes: &[u8] = path.as_str().as_bytes();
                write_u32(&mut buf, 24, bytes.len() as u32);
                write_bytes(&mut buf, PATH_AT, bytes);
            },
            None => {
                write_u32(&mut buf, 24, 0);
                assert(overwrite(buf@, PATH_AT as int, Seq::empty()) =~= buf@);
            },
        }
        buf
    }

    /// Whether the path fits into the meta page.
    pub fn path_fits(&self) -> (r: bool)
        ensures
            r == path_fits(self@.base_path),
    {
        match &self.base_path {
            Some(path) => path.as_str().as_bytes().len() <= PAGE_SIZE - PATH_AT,
            None => true,
        }
    }

    /// Where the flags of a file with a base start.
    pub fn flags_offset(&self) -> (offset: u64)
        ensures
            offset == self.num_pages * PAGE_SIZE,
    {
        assert(self.num_pages * PAGE_SIZE <= 0xffff_ffff * PAGE_SIZE);
        self.num_pages as u64 * PAGE_SIZE as u64
    }

    /// How many bytes the flags of a file with a base take.
    pub fn flags_len(&self) -> (len: usize)
        ensures
            len == packed_len(self.base_offset as int),
    {
        let whole: usize = (self.base_offset / 8) as usize;
        if self.base_offset % 8 == 0 {
            whole
        } else {
            whole + 1
        }
    }

    /// Reads a meta page.
    pub fn decode(buf: &[u8]) -> (r: Result<Meta>)
        requires
            buf@.len() == PAGE_SIZE,
            is_meta(buf@) ==> path_end(buf@) <= PAGE_SIZE,
        ensures
            match r {
                Ok(m) => is_meta(buf@) && decodes(buf@, m@),
                Err(e) => !is_meta(buf@) && e == Error::Io(Fault::BadMagic),
            },
            r is Ok <==> {
                &&& buf@[0] == 83 && buf@[1] == 73 && buf@[2] == 77 && buf@[3] == 80
                &&& buf@[4] == 76 && buf@[5] == 69 && buf@[6] == 68 && buf@[7] == 66
            },
            r matches Ok(m) ==> {
                &&& m.root == buf@[8] + 256 * buf@[9] + 65536 * buf@[10] + 16777216 * buf@[11]
                &&& m.num_pages == buf@[12] + 256 * buf@[13] + 65536 * buf@[14] + 16777216
                    * buf@[15]
                &&& m.height == buf@[16] + 256 * buf@[17] + 65536 * buf@[18] + 16777216 * buf@[19]
                &&& m.base_offset == buf@[20] + 256 * buf@[21] + 65536 * buf@[22] + 16777216
                    * buf@[23]
                &&& m.base_path is None <==> buf@[24] == 0 && buf@[25] == 0 && buf@[26] == 0
                    && buf@[27] == 0
            },
            r matches Err(e) ==> e == Error::Io(Fault::BadMagic),
            r matches Ok(m) ==> forall|p: Seq<char>|
                p.len() > 0 && buf@.subrange(
                    28,
                    28 + (buf@[24] + 256 * buf@[25] + 65536 * buf@[26] + 16777216 * buf@[27]),
                ) == #[trigger] encode_utf8(p) ==> m.base_path is Some && m.base_path->0@ == p,
    {
        proof {
            let len = buf@[24] + 256 * buf@[25] + 65536 * buf@[26] + 16777216 * buf@[27];
            assert(len == u32_at(buf@, 24));
            assert forall|p: Seq<char>|
                p.len() > 0 && buf@.subrange(28, 28 + len) == #[trigger] encode_utf8(
                    p,
                ) implies valid_utf8(buf@.subrange(28, 28 + len)) && decode_utf8(
                buf@.subrange(28, 28 + len),
            ) == p && encode_utf8(p).len() > 0 by {
                lemma_path_text(p);
            }
        }
        let head: &[u8] = slice_subrange(buf, 0, 8);
        assert(head@ =~= buf@.take(8));
        if !starts_file(head) {
            return Err(Error::Io(Fault::BadMagic));
        }
        let root: u32 = read_u32(buf, 8);
        let num_pages: u32 = read_u32(buf, 12);
        let height: u32 = read_u32(buf, 16);
        let base_offset: u32 = read_u32(buf, 20);
        let len: usize = read_u32(buf, 24) as usize;
        let base_path: Option<String> = if len > 0 {
            Some(text_from_bytes(slice_subrange(buf, PATH_AT, PATH_AT + len)))
        } else {
            None
        };
        Ok(Meta { root, num_pages, height, base_offset, base_path })
    }
}

/// Whether these eight bytes are the magic.
fn starts_file(head: &[u8]) -> (r: bool)
    requires
        head@.len() == 8,
    ensures
        r == (head@ == file_magic()),
        r == (head@[0] == 83 && head@[1] == 73 && head@[2] == 77 && head@[3] == 80 && head@[4] == 76
            && head@[5] == 69 && head@[6] == 68 && head@[7] == 66),
{
    let r: bool = head[0] == 83 && head[1] == 73 && head[2] == 77 && head[3] == 80 && head[4] == 76
        && head[5] == 69 && head[6] == 68 && head[7] == 66;
    proof {
        if r {
            assert(head@ =~= file_magic());
        }
    }
    r
}

/// Whether the path in the page, if it is a meta page, ends within the page.
pub fn path_in_page(buf: &[u8]) -> (r: bool)
    requires
        buf@.len() == PAGE_SIZE,
    ensures
        r == (is_meta(buf@) ==> path_end(buf@) <= PAGE_SIZE),
        r == ({
            &&& buf@[0] == 83 && buf@[1] == 73 && buf@[2] == 77 && buf@[3] == 80
            &&& buf@[4] == 76 && buf@[5] == 69 && buf@[6] == 68 && buf@[7] == 66
        } ==> 28 + buf@[24] + 256 * buf@[25] + 65536 * buf@[26] + 16777216 * buf@[27] <= 8192),
{
    let head: &[u8] = slice_subrange(buf, 0, 8);
    assert(head@ =~= buf@.take(8));
    !starts_file(head) || read_u32(buf, 24) as usize <= PAGE_SIZE - PATH_AT
}

/// The integer in the four bytes that hold it.
proof fn lemma_u32_at(b: Seq<u8>, off: int, v: u32)
    requires
        0 <= off,
        off + 4 <= b.len(),
        b.subrange(off, off + 4) == u32_bytes(v),
    ensures
        u32_at(b, off) == v,
{
    let w = b.subrange(off, off + 4);
    assert(b[off] == w[0] && b[off + 1] == w[1] && b[off + 2] == w[2] && b[off + 3] == w[3]);
}

/// Where everything stands in a meta page.
#[verifier::spinoff_prover]
#[verifier::rlimit(60)]
proof fn lemma_encoded(m: MetaModel)
    requires
        path_fits(m.base_path),
    ensures
        encoded(m).len() == PAGE_SIZE,
        encoded(m).take(8) == file_magic(),
        encoded(m).subrange(8, 12) == u32_bytes(m.root),
        encoded(m).subrange(12, 16) == u32_bytes(m.num_pages),
        encoded(m).subrange(16, 20) == u32_bytes(m.height),
        encoded(m).subrange(20, 24) == u32_bytes(m.base_offset),
        encoded(m).subrange(24, 28) == u32_bytes(path_bytes(m.base_path).len() as u32),
        encoded(m).subrange(PATH_AT as int, PATH_AT + path_bytes(m.base_path).len()) == path_bytes(
            m.base_path,
        ),
{
    let b = encoded(m);
    let pb = path_bytes(m.base_path);
    assert(b.take(8) =~= file_magic());
    assert(b.subrange(8, 12) =~= u32_bytes(m.root));
    assert(b.subrange(12, 16) =~= u32_bytes(m.num_pages));
    assert(b.subrange(16, 20) =~= u32_bytes(m.height));
    assert(b.subrange(20, 24) =~= u32_bytes(m.base_offset));
    assert(b.subrange(24, 28) =~= u32_bytes(pb.len() as u32));
    assert(b.subrange(PATH_AT as int, PATH_AT + pb.len()) =~= pb);
}

/// Text is read back from its bytes.
proof fn lemma_path_text(p: Seq<char>)
    ensures
        valid_utf8(encode_utf8(p)),
        decode_utf8(encode_utf8(p)) == p,
        p.len() > 0 ==> encode_utf8(p).len() > 0,
{
    encode_utf8_valid_utf8(p);
    encode_utf8_decode_utf8(p);
    if encode_utf8(p).len() == 0 {
        assert(decode_utf8(encode_utf8(p)).len() == 0);
    }
}

/// A meta page says what was written into it. An empty path reads as none.
pub proof fn law_meta_round_trip(m: MetaModel)
    requires
        path_fits(m.base_path),
        path_named(m.base_path),
    ensures
        encoded(m).len() == PAGE_SIZE,
        is_meta(encoded(m)),
        path_end(encoded(m)) <= PAGE_SIZE,
        forall|n: MetaModel| #[trigger] decodes(encoded(m), n) <==> n == m,
{
    lemma_encoded(m);
    if let Some(p) = m.base_path {
        lemma_path_text(p);
    }
    lemma_read_back(m, encoded(m));
}

/// Where every field of a meta page stands, byte by byte: the magic `SIMPLEDB`, five integers
/// with their least significant byte first, the path, and zeros.
pub proof fn law_meta_bytes(m: MetaModel)
    requires
        path_fits(m.base_path),
    ensures
        ({
            let b = encoded(m);
            &&& b.len() == 8192
            &&& b[0] == 83 && b[1] == 73 && b[2] == 77 && b[3] == 80
            &&& b[4] == 76 && b[5] == 69 && b[6] == 68 && b[7] == 66
            &&& b[8] + 256 * b[9] + 65536 * b[10] + 16777216 * b[11] == m.root
            &&& b[12] + 256 * b[13] + 65536 * b[14] + 16777216 * b[15] == m.num_pages
            &&& b[16] + 256 * b[17] + 65536 * b[18] + 16777216 * b[19] == m.height
            &&& b[20] + 256 * b[21] + 65536 * b[22] + 16777216 * b[23] == m.base_offset
            &&& m.base_path matches Some(p) ==> {
                &&& b[24] + 256 * b[25] + 65536 * b[26] + 16777216 * b[27] == encode_utf8(p).len()
                &&& b.subrange(28, 28int + encode_utf8(p).len()) == encode_utf8(p)
                &&& forall|i: int| 28 + encode_utf8(p).len() <= i < 8192 ==> #[trigger] b[i] == 0
            }
            &&& m.base_path is None ==> forall|i: int| 24 <= i < 8192 ==> #[trigger] b[i] == 0
        }),
{
    lemma_encoded(m);
    let b = encoded(m);
    let pb = path_bytes(m.base_path);
    assert forall|i: int| 0 <= i < 8 implies b[i] == file_magic()[i] by {
        assert(b.take(8)[i] == b[i]);
    }
    lemma_u32_at(b, 8, m.root);
    lemma_u32_at(b, 12, m.num_pages);
    lemma_u32_at(b, 16, m.height);
    lemma_u32_at(b, 20, m.base_offset);
    lemma_u32_at(b, 24, pb.len() as u32);
}

/// The paths that a meta page has room for are those of at most 8164 bytes.
pub proof fn law_path_room(p: Seq<char>)
    ensures
        path_fits(None),
        path_fits(Some(p)) <==> 28 + encode_utf8(p).len() <= 8192,
        path_named(None),
        path_named(Some(p)) <==> p.len() > 0,
{
}

/// A page with everything in its place says `m`.
#[verifier::spinoff_prover]
#[verifier::rlimit(60)]
proof fn lemma_read_back(m: MetaModel, b: Seq<u8>)
    requires
        path_fits(m.base_path),
        m.base_path matches Some(p) ==> {
            &&& valid_utf8(encode_utf8(p))
            &&& decode_utf8(encode_utf8(p)) == p
            &&& encode_utf8(p).len() > 0
        },
        b.len() == PAGE_SIZE,
        is_meta(b),
        b.subrange(8, 12) == u32_bytes(m.root),
        b.subrange(12, 16) == u32_bytes(m.num_pages),
        b.subrange(16, 20) == u32_bytes(m.height),
        b.subrange(20, 24) == u32_bytes(m.base_offset),
        b.subrange(24, 28) == u32_bytes(path_bytes(m.base_path).len() as u32),
        b.subrange(PATH_AT as int, PATH_AT + path_bytes(m.base_path).len()) == path_bytes(
            m.base_path,
        ),
    ensures
        path_end(b) <= PAGE_SIZE,
        forall|n: MetaModel| #[trigger] decodes(b, n) <==> n == m,
{
    lemma_u32_at(b, 8, m.root);
    lemma_u32_at(b, 12, m.num_pages);
    lemma_u32_at(b, 16, m.height);
    lemma_u32_at(b, 20, m.base_offset);
    lemma_u32_at(b, 24, path_bytes(m.base_path).len() as u32);
    assert forall|n: MetaModel| #[trigger] decodes(b, n) implies n == m by {
        assert(n.base_path == m.base_path);
    }
}

/// A meta page stands for its fields as they are.
pub proof fn law_meta_fields(m: Meta)
    ensures
        m@.root == m.root,
        m@.num_pages == m.num_pages,
        m@.height == m.height,
        m@.base_offset == m.base_offset,
        m.base_path is None ==> m@.base_path is None,
        m.base_path matches Some(p) ==> m@.base_path == Some(p@),
{
}

} // verus!
