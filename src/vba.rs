//! The VBA project stored in a compound file: its streams, its `dir` stream
//! (references and modules) and the source of its modules.
use vstd::prelude::*;
use vstd::string::StringSliceAdditionalSpecFns;
use vstd::utf8::{decode_utf8, encode_utf8, valid_utf8};
use crate::cfb::{
    chain_ids, dif_spec, dir_name_of, fat_spec, le16_at, le32_at, read_directories,
    records_complete, sectors_bytes, to_u32_vec, words_of, Directory, Header, Sector, ENDOFCHAIN,
    HEADER_LEN,
};
use crate::dirstream::{
    dir_header_layout, fields_spec, mod_views, modules_spec, read_dir_header, read_modules,
    read_references, ref_views, refs_spec, refs_unknown_tag, modules_unknown_tag, utf8_text, ModView, Module, RefView, Reference,
};
use crate::project::{bytes_are, code_modules_of, entry_views, project_spec};
use crate::error::{bad_encoding, malformed, ExcelResult};
use crate::rle::{decompress_spec, decompress_stream, pow2};

verus! {

pub const OLE_SIGNATURE: [u8; 8] = [0xD0, 0xCF, 0x11, 0xE0, 0xA1, 0xB1, 0x1A, 0xE1];

pub open spec fn ole_signature() -> Seq<u8> {
    seq![0xD0u8, 0xCF, 0x11, 0xE0, 0xA1, 0xB1, 0x1A, 0xE1]
}

/// `b` cut to at most `n` bytes.
pub open spec fn truncated(b: Seq<u8>, n: nat) -> Seq<u8> {
    if n < b.len() {
        b.subrange(0, n as int)
    } else {
        b
    }
}

/// The bytes of a chain in a pool of `size`-byte sectors `body` chained by `fat`.
pub open spec fn pool_chain(body: Seq<u8>, size: nat, fat: Seq<u32>, s: u32) -> Option<Seq<u8>> {
    let n = body.len() / size;
    match chain_ids(fat, n, s, n) {
        Some(ids) => Some(sectors_bytes(body, size, ids)),
        None => None,
    }
}

/// The sector size that the header of `data` gives.
pub open spec fn sector_size_of(data: Seq<u8>) -> nat {
    pow2(le16_at(data, 30))
}

pub open spec fn mini_size_of(data: Seq<u8>) -> nat {
    pow2(le16_at(data, 32))
}

/// The image after its 512-byte header.
pub open spec fn body_of(data: Seq<u8>) -> Seq<u8> {
    data.subrange(512, data.len() as int)
}

/// The header checks: size, signature, sector shifts, whole sectors.
pub open spec fn header_ok(data: Seq<u8>) -> bool {
    &&& data.len() >= 512
    &&& data.subrange(0, 8) == ole_signature()
    &&& 2 <= le16_at(data, 30) <= 30
    &&& le16_at(data, 32) <= 30
    &&& (data.len() - 512) % (sector_size_of(data) as int) == 0
}

/// The master FAT of the image.
pub open spec fn fat_of(data: Seq<u8>) -> Option<Seq<u32>> {
    let body = body_of(data);
    let size = sector_size_of(data);
    match dif_spec(body, size, le32_at(data, 68) as u32, words_of(data.subrange(76, 512)), body.len() / size) {
        Some(fs) => fat_spec(body, size, fs),
        None => None,
    }
}

/// The directory buffer of the image.
pub open spec fn dir_buffer_of(data: Seq<u8>) -> Option<Seq<u8>> {
    match fat_of(data) {
        Some(fat) => pool_chain(body_of(data), sector_size_of(data), fat, le32_at(data, 48) as u32),
        None => None,
    }
}

/// The checks on the mini stream, whose root entry starts at `root_start`
/// and has `root_size` bytes.
pub open spec fn mini_ok(data: Seq<u8>, fat: Seq<u32>, root_start: u32, root_size: nat) -> bool {
    let body = body_of(data);
    let size = sector_size_of(data);
    root_start == ENDOFCHAIN || {
        &&& pool_chain(body, size, fat, root_start) is Some
        &&& pool_chain(body, size, fat, le32_at(data, 60) as u32) is Some
        &&& root_size % mini_size_of(data) == 0
        &&& truncated(pool_chain(body, size, fat, root_start)->0, root_size).len() % mini_size_of(data) == 0
    }
}

/// The image opens: every step of the reader succeeds.
pub open spec fn image_ok(data: Seq<u8>) -> bool {
    &&& header_ok(data)
    &&& fat_of(data) is Some
    &&& dir_buffer_of(data) is Some
    &&& records_complete(dir_buffer_of(data)->0.len())
    &&& dir_buffer_of(data)->0.len() > 0
    &&& mini_ok(data, fat_of(data)->0, le32_at(dir_buffer_of(data)->0, 116) as u32,
            le32_at(dir_buffer_of(data)->0, 120))
}

/// A VBA project: the compound file's header, directory and sector pools.
pub struct VbaProject {
    pub header: Header,
    pub directories: Vec<Directory>,
    pub sectors: Sector,
    pub mini_sectors: Option<Sector>,
}

impl VbaProject {
    /// The project read from `data`, as the image lays it out.
    pub open spec fn read_from(self, data: Seq<u8>) -> bool {
        let body = body_of(data);
        let size = sector_size_of(data);
        let dirs = dir_buffer_of(data)->0;
        &&& self.header.parsed_from(data)
        &&& self.sectors.wf()
        &&& self.sectors.data@ == body
        &&& self.sectors.size as nat == size
        &&& fat_of(data) == Some(self.sectors.fats@)
        &&& self.directories@.len() == (dirs.len() + 127) / 128
        &&& forall|i: int| 0 <= i < self.directories@.len()
            ==> (#[trigger] self.directories@[i]).parsed_from(dirs, 128 * i)
        &&& match self.mini_sectors {
            None => self.directories@[0].sect_start == ENDOFCHAIN,
            Some(m) => {
                &&& self.directories@[0].sect_start != ENDOFCHAIN
                &&& m.wf()
                &&& m.size as nat == mini_size_of(data)
                &&& m.data@ == truncated(
                    pool_chain(body, size, self.sectors.fats@, self.directories@[0].sect_start)->0,
                    self.directories@[0].ul_size as nat,
                )
                &&& m.fats@ == words_of(pool_chain(body, size, self.sectors.fats@, self.header.sect_mini_fat_start)->0)
            },
        }
    }

    pub open spec fn wf(&self) -> bool {
        &&& self.sectors.wf()
        &&& (self.mini_sectors matches Some(m) ==> m.wf())
    }

    /// The bytes of the chain behind entry `d`, before they are cut to its
    /// size: from the mini pool when the entry is smaller than the cutoff and
    /// there is a mini pool, else from the regular pool.
    pub open spec fn chain_of(&self, d: Directory) -> Option<Seq<u8>> {
        match self.mini_sectors {
            Some(m) => if d.ul_size < self.header.mini_sector_cutoff {
                m.chain_spec(d.sect_start)
            } else {
                self.sectors.chain_spec(d.sect_start)
            },
            None => self.sectors.chain_spec(d.sect_start),
        }
    }

    /// What looking up the stream named `name` (UTF-8 bytes) gives: `None`
    /// when the chain behind the first entry of that name is broken, else
    /// `Some(None)` when no entry has the name, else its bytes cut to the
    /// entry's size.
    pub open spec fn stream_spec(&self, name: Seq<u8>) -> Option<Option<Seq<u8>>> {
        match first_named(self.directories@, name, 0) {
            None => Some(None),
            Some(i) => match self.chain_of(self.directories@[i]) {
                Some(b) => Some(Some(truncated(b, self.directories@[i].ul_size as nat))),
                None => None,
            },
        }
    }

    fn stream_by_bytes(&self, target: &[u8]) -> (r: ExcelResult<Option<Vec<u8>>>)
        requires
            self.wf(),
        ensures
            match self.stream_spec(target@) {
                None => r is Err,
                Some(None) => r is Ok && r->Ok_0 is None,
                Some(Some(b)) => r is Ok && r->Ok_0 is Some && r->Ok_0->0@ == b,
            },
    {
        let mut i: usize = 0;
        while i < self.directories.len()
            invariant
                i <= self.directories@.len(),
                self.wf(),
                first_named(self.directories@, target@, 0) == first_named(self.directories@, target@, i as int),
            decreases self.directories@.len() - i,
        {
            let d = &self.directories[i];
            let n = d.get_name();
            if bytes_are(n.as_slice(), target) {
                let mut data = match &self.mini_sectors {
                    Some(m) => if d.ul_size < self.header.mini_sector_cutoff {
                        m.read_chain(d.sect_start)?
                    } else {
                        self.sectors.read_chain(d.sect_start)?
                    },
                    None => self.sectors.read_chain(d.sect_start)?,
                };
                let ghost whole = data@;
                data.truncate(d.ul_size as usize);
                assert(data@ =~= truncated(whole, d.ul_size as nat));
                return Ok(Some(data));
            }
            i = i + 1;
        }
        Ok(None)
    }

    /// Looks up the stream `name` in the directory, in entry order.
    /// `Ok(None)` when no entry has that name; an error when the first entry
    /// that has it leads to a broken chain.
    pub fn get_stream(&self, name: &str) -> (r: ExcelResult<Option<Vec<u8>>>)
        requires
            self.wf(),
        ensures
            match self.stream_spec(name.spec_bytes()) {
                None => r is Err,
                Some(None) => r is Ok && r->Ok_0 is None,
                Some(Some(b)) => r is Ok && r->Ok_0 is Some && r->Ok_0->0@ == b,
            },
    {
        self.stream_by_bytes(name.as_bytes())
    }

    /// Reads the module entries of the `PROJECT` stream: module name and
    /// the extension of its source file.
    pub fn get_code_modules(&self) -> (r: ExcelResult<Vec<(String, &'static str)>>)
        requires
            self.wf(),
        ensures
            match self.stream_spec(project_name()) {
                None => r is Err,
                Some(None) => r is Err && r->Err_0 is Malformed
                    && r->Err_0->Malformed_0@ == "cannot find 'PROJECT' stream"@,
                Some(Some(b)) => match project_spec(b, 0, Seq::empty()) {
                    Some(m) => r is Ok && entry_views(r->Ok_0@) == m,
                    None => r is Err,
                },
            },
    {
        let name: Vec<u8> = vec![0x50, 0x52, 0x4F, 0x4A, 0x45, 0x43, 0x54];
        assert(name@ =~= project_name());
        match self.stream_by_bytes(name.as_slice())? {
            Some(s) => code_modules_of(s.as_slice()),
            None => Err(malformed("cannot find 'PROJECT' stream")),
        }
    }

    /// Reads the `dir` stream: decompresses it, skips the project
    /// information, and reads the references and the modules.
    pub fn read_vba(&self) -> (r: ExcelResult<(Vec<Reference>, Vec<Module>)>)
        requires
            self.wf(),
        ensures
            match self.stream_spec(dir_name()) {
                None => r is Err,
                Some(None) => r is Err && r->Err_0 is Malformed
                    && r->Err_0->Malformed_0@ == "cannot find 'dir' stream"@,
                Some(Some(b)) if decompress_spec(b) matches Some(d) && vba_unknown_tag(d) => r is Err
                    && r->Err_0 is Malformed,
                Some(Some(b)) => match decompress_spec(b) {
                    None => r is Err,
                    Some(d) => match vba_spec(d) {
                        None => r is Err,
                        Some(t) => r is Ok && ref_views(r->Ok_0.0@) == t.0 && mod_views(r->Ok_0.1@) == t.1,
                    },
                },
            },
    {
        let name: Vec<u8> = vec![0x64, 0x69, 0x72];
        assert(name@ =~= dir_name());
        let stream = match self.stream_by_bytes(name.as_slice())? {
            Some(s) => decompress_stream(s.as_slice())?,
            None => return Err(malformed("cannot find 'dir' stream")),
        };
        let q = read_dir_header(stream.as_slice())?;
        let (references, q2) = read_references(stream.as_slice(), q)?;
        let modules = read_modules(stream.as_slice(), q2)?;
        Ok((references, modules))
    }

    /// Reads the source of a module: its stream from the text offset on,
    /// decompressed, as UTF-8 text.
    pub fn read_module(&self, module: &Module) -> (r: ExcelResult<String>)
        requires
            self.wf(),
        ensures
            match self.stream_spec(encode_utf8(module.stream_name@)) {
                None => r is Err,
                Some(None) => r is Err && r->Err_0 is Malformed,
                Some(Some(b)) => if module.text_offset > b.len() {
                    r is Err && r->Err_0 is Malformed
                } else {
                    match decompress_spec(b.subrange(module.text_offset as int, b.len() as int)) {
                        None => r is Err,
                        Some(d) => if valid_utf8(d) {
                            r is Ok && r->Ok_0@ == decode_utf8(d)
                        } else {
                            r is Err && r->Err_0 is Encoding
                        },
                    }
                },
            },
    {
        match self.get_stream(module.stream_name.as_str())? {
            None => Err(malformed("cannot find the module's stream")),
            Some(s) => {
                if module.text_offset > s.len() {
                    return Err(malformed("text offset beyond the end of the stream"));
                }
                let data = decompress_stream(&s.as_slice()[module.text_offset..s.len()])?;
                match utf8_text(data.as_slice()) {
                    Some(t) => Ok(t),
                    None => Err(bad_encoding("module source is not valid UTF-8")),
                }
            },
        }
    }

    /// Reads a compound file image (header included) into a project.
    pub fn new(data: &[u8]) -> (r: ExcelResult<VbaProject>)
        ensures
            r is Ok <==> image_ok(data@),
            r is Ok ==> r->Ok_0.read_from(data@) && r->Ok_0.wf(),
            data@.len() < 512 ==> r is Err && r->Err_0 is Io,
            data@.len() >= 512 && data@.subrange(0, 8) != ole_signature() ==> r is Err
                && r->Err_0 is Malformed && r->Err_0->Malformed_0@ == "invalid OLE signature"@,
            data@.len() >= 512 && data@.subrange(0, 8) == ole_signature() && le16_at(data@, 30) <= 63
                && (data@.len() - 512) % (sector_size_of(data@) as int) != 0 ==> r is Err && r->Err_0 is Malformed && r->Err_0->Malformed_0@ == "last sector has invalid size"@,
    {
        let header = Header::from_slice(data)?;
        let mut k: usize = 0;
        while k < 8
            invariant
                k <= 8,
                data@.len() >= 512,
                header.parsed_from(data@),
                header.ab_sig@.len() == 8,
                forall|j: int| 0 <= j < k ==> header.ab_sig@[j] == ole_signature()[j],
            decreases 8 - k,
        {
            if header.ab_sig[k] != OLE_SIGNATURE[k] {
                assert(header.ab_sig@ != ole_signature());
                return Err(malformed("invalid OLE signature"));
            }
            k = k + 1;
        }
        assert(header.ab_sig@ =~= ole_signature());
        if header.sector_shift <= 63 {
            let whole = power_of_two_u64(header.sector_shift as u64);
            if (data.len() - HEADER_LEN) as u64 % whole != 0 {
                return Err(malformed("last sector has invalid size"));
            }
        }
        if header.sector_shift < 2 || header.sector_shift > 30 {
            return Err(malformed("invalid sector size"));
        }
        if header.mini_sector_shift > 30 {
            return Err(malformed("invalid mini sector size"));
        }
        let sector_size = power_of_two(header.sector_shift as usize);
        if (data.len() - HEADER_LEN) % sector_size != 0 {
            return Err(malformed("last sector has invalid size"));
        }
        let mut body: Vec<u8> = Vec::new();
        let mut i: usize = HEADER_LEN;
        while i < data.len()
            invariant
                512 <= i <= data@.len(),
                body@ == data@.subrange(512, i as int),
            decreases data@.len() - i,
        {
            body.push(data[i]);
            i = i + 1;
            assert(body@ =~= data@.subrange(512, i as int));
        }
        let sector = Sector::new(body, sector_size);
        let mut embedded: Vec<u32> = Vec::new();
        let mut j: usize = 0;
        while j < header.sect_fat.len()
            invariant
                j <= header.sect_fat@.len(),
                embedded@ == header.sect_fat@.subrange(0, j as int),
            decreases header.sect_fat@.len() - j,
        {
            embedded.push(header.sect_fat[j]);
            j = j + 1;
            assert(embedded@ =~= header.sect_fat@.subrange(0, j as int));
        }
        assert(embedded@ =~= header.sect_fat@);
        proof {
            lemma_pow2_multiple_of_4(header.sector_shift as nat);
        }
        let fat_sectors = sector.load_fat_sectors(header.sect_dif_start, embedded)?;
        let fat = sector.load_fat(&fat_sectors)?;
        let sectors = sector.with_fats(fat);
        let dir_buf = sectors.read_chain(header.sect_dir_start)?;
        let directories = read_directories(dir_buf.as_slice())?;
        if directories.len() == 0 {
            return Err(malformed("empty directory"));
        }
        let root_start = directories[0].sect_start;
        let root_size = directories[0].ul_size;
        let mini_sectors = if root_start == ENDOFCHAIN {
            None
        } else {
            let mut ministream = sectors.read_chain(root_start)?;
            let ghost whole = ministream@;
            ministream.truncate(root_size as usize);
            assert(ministream@ =~= truncated(whole, root_size as nat));
            let minifat_bytes = sectors.read_chain(header.sect_mini_fat_start)?;
            proof {
                lemma_mod_4(minifat_bytes@.len() as int, sector_size as int);
            }
            let minifat = to_u32_vec(minifat_bytes.as_slice())?;
            let mini_size = power_of_two(header.mini_sector_shift as usize);
            if root_size as usize % mini_size != 0 || ministream.len() % mini_size != 0 {
                return Err(malformed("mini stream has invalid size"));
            }
            Some(Sector::new(ministream, mini_size).with_fats(minifat))
        };
        Ok(VbaProject { header, directories, sectors, mini_sectors })
    }
}

/// The index of the first entry at or after `i` whose name is `name`.
pub open spec fn first_named(dirs: Seq<Directory>, name: Seq<u8>, i: int) -> Option<int>
    decreases dirs.len() - i,
{
    if i < 0 || i >= dirs.len() {
        None
    } else if dir_name_of(dirs[i].ab@) == name {
        Some(i)
    } else {
        first_named(dirs, name, i + 1)
    }
}

/// Reading a decompressed `dir` stream stops at a reference or module
/// record tag that it does not know.
pub open spec fn vba_unknown_tag(d: Seq<u8>) -> bool {
    match fields_spec(d, 0, dir_header_layout()) {
        None => false,
        Some(q) => refs_unknown_tag(d, q, (Seq::empty(), Seq::empty(), seq!['/']), Seq::empty()) || match refs_spec(
            d,
            q,
            (Seq::empty(), Seq::empty(), seq!['/']),
            Seq::empty(),
        ) {
            Some(t) => modules_unknown_tag(d, t.1),
            None => false,
        },
    }
}

/// The name `PROJECT` as bytes.
pub open spec fn project_name() -> Seq<u8> {
    seq![0x50u8, 0x52, 0x4F, 0x4A, 0x45, 0x43, 0x54]
}

/// The name `dir` as bytes.
pub open spec fn dir_name() -> Seq<u8> {
    seq![0x64u8, 0x69, 0x72]
}

/// The references and modules of a decompressed `dir` stream.
pub open spec fn vba_spec(d: Seq<u8>) -> Option<(Seq<RefView>, Seq<ModView>)> {
    match fields_spec(d, 0, dir_header_layout()) {
        None => None,
        Some(q) => match refs_spec(d, q, (Seq::empty(), Seq::empty(), seq!['/']), Seq::empty()) {
            None => None,
            Some(t) => match modules_spec(d, t.1) {
                None => None,
                Some(m) => Some((t.0, m.0)),
            },
        },
    }
}

/// `2^n` for `n <= 30`.
fn power_of_two(n: usize) -> (r: usize)
    requires
        n <= 30,
    ensures
        r as nat == pow2(n as nat),
        r >= 1,
{
    let mut r: usize = 1;
    let mut i: usize = 0;
    while i < n
        invariant
            i <= n <= 30,
            r as nat == pow2(i as nat),
            1 <= r <= 0x4000_0000,
        decreases n - i,
    {
        proof {
            crate::rle::lemma_pow2_mono(i as nat, 29);
            lemma_pow2_29();
        }
        r = r * 2;
        i = i + 1;
    }
    r
}

proof fn lemma_mod_4(a: int, s: int)
    requires
        s > 0,
        a >= 0,
        a % s == 0,
        s % 4 == 0,
    ensures
        a % 4 == 0,
{
    vstd::arithmetic::div_mod::lemma_fundamental_div_mod(a, s);
    vstd::arithmetic::div_mod::lemma_fundamental_div_mod(s, 4);
    let q = a / s;
    let t = s / 4;
    assert(a == 4 * (t * q)) by (nonlinear_arith)
        requires
            a == s * q,
            s == 4 * t,
    ;
    vstd::arithmetic::div_mod::lemma_mod_multiples_basic(t * q, 4);
}

/// `2^n` for `n <= 63`.
fn power_of_two_u64(n: u64) -> (r: u64)
    requires
        n <= 63,
    ensures
        r as nat == pow2(n as nat),
        r >= 1,
{
    let mut r: u64 = 1;
    let mut i: u64 = 0;
    while i < n
        invariant
            i <= n <= 63,
            r as nat == pow2(i as nat),
            1 <= r <= 0x8000_0000_0000_0000,
        decreases n - i,
    {
        proof {
            crate::rle::lemma_pow2_mono(i as nat, 62);
            lemma_pow2_62();
        }
        r = r * 2;
        i = i + 1;
    }
    r
}

proof fn lemma_pow2_62()
    ensures
        pow2(62) == 0x4000_0000_0000_0000,
{
    reveal_with_fuel(pow2, 63);
}

proof fn lemma_pow2_29()
    ensures
        pow2(29) == 0x2000_0000,
{
    reveal_with_fuel(pow2, 30);
}

proof fn lemma_pow2_multiple_of_4(n: nat)
    requires
        n >= 2,
    ensures
        pow2(n) % 4 == 0,
    decreases n,
{
    if n > 2 {
        lemma_pow2_multiple_of_4((n - 1) as nat);
    } else {
        reveal_with_fuel(pow2, 3);
    }
}

} // verus!
