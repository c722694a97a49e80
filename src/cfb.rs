//! The OLE compound file (CFB) container: header, sector chains, FAT and directory.
use vstd::prelude::*;
use vstd::utf8::encode_utf8;
use encoding::Encoding;
use crate::error::{eof, malformed, ExcelResult};

verus! {

pub const ENDOFCHAIN: u32 = 0xFFFF_FFFE;
pub const FREESECT: u32 = 0xFFFF_FFFF;
pub const HEADER_LEN: usize = 512;

/// Little-endian 16-bit word at `p`.
pub open spec fn le16_at(s: Seq<u8>, p: int) -> nat {
    (s[p] + 256 * s[p + 1]) as nat
}

/// Little-endian 32-bit word at `p`.
pub open spec fn le32_at(s: Seq<u8>, p: int) -> nat {
    (s[p] + 256 * s[p + 1] + 65536 * s[p + 2] + 16777216 * s[p + 3]) as nat
}

/// The 32-bit little-endian words of `s`, which has a length that is a multiple of 4.
pub open spec fn words_of(s: Seq<u8>) -> Seq<u32> {
    Seq::new((s.len() / 4) as nat, |i: int| le32_at(s, 4 * i) as u32)
}

pub fn read_u16_at(s: &[u8], p: usize) -> (r: u16)
    requires
        p + 2 <= s@.len(),
    ensures
        r as nat == le16_at(s@, p as int),
{
    s[p] as u16 + 256 * (s[p + 1] as u16)
}

pub fn read_u32_at(s: &[u8], p: usize) -> (r: u32)
    requires
        p + 4 <= s@.len(),
    ensures
        r as nat == le32_at(s@, p as int),
{
    s[p] as u32 + 256 * (s[p + 1] as u32) + 65536 * (s[p + 2] as u32) + 16777216 * (s[p + 3] as u32)
}

/// Reads the `n` words that start at byte `p` of `s`, appending them to `out`.
fn push_words(s: &[u8], p: usize, n: usize, out: &mut Vec<u32>)
    requires
        p + 4 * n <= s@.len(),
    ensures
        final(out)@ == old(out)@ + words_of(s@.subrange(p as int, p + 4 * n)),
{
    let ghost w = words_of(s@.subrange(p as int, p + 4 * n));
    let ghost before = out@;
    let total = s.len();
    let mut i: usize = 0;
    while i < n
        invariant
            i <= n,
            total == s@.len(),
            p + 4 * n <= s@.len(),
            w == words_of(s@.subrange(p as int, p + 4 * n)),
            out@ == before + w.subrange(0, i as int),
        decreases n - i,
    {
        assert(4 * i + 4 <= 4 * n) by (nonlinear_arith)
            requires
                i < n,
        ;
        let q: usize = p + 4 * i;
        let v = read_u32_at(s, q);
        assert(w[i as int] == v);
        out.push(v);
        i = i + 1;
        assert(out@ =~= before + w.subrange(0, i as int));
    }
    assert(w.subrange(0, n as int) =~= w);
}

/// Splits a byte buffer into 32-bit little-endian words.
pub fn to_u32_vec(buffer: &[u8]) -> (r: ExcelResult<Vec<u32>>)
    ensures
        buffer@.len() % 4 == 0 ==> r is Ok && r->Ok_0@ == words_of(buffer@),
        buffer@.len() % 4 != 0 ==> r is Err && r->Err_0 is Malformed,
{
    if buffer.len() % 4 != 0 {
        return Err(malformed("buffer length is not a multiple of 4"));
    }
    let mut res: Vec<u32> = Vec::new();
    push_words(buffer, 0, buffer.len() / 4, &mut res);
    assert(buffer@.subrange(0, 4 * (buffer@.len() / 4) as int) =~= buffer@);
    assert(res@ =~= words_of(buffer@));
    Ok(res)
}

/// The fields of the 512-byte header that the reader uses.
pub struct Header {
    pub ab_sig: Vec<u8>,
    pub sector_shift: u16,
    pub mini_sector_shift: u16,
    pub sect_dir_start: u32,
    pub mini_sector_cutoff: u32,
    pub sect_mini_fat_start: u32,
    pub sect_dif_start: u32,
    pub sect_fat: Vec<u32>,
}

impl Header {
    /// The header laid out in the first 512 bytes of `s`.
    pub open spec fn parsed_from(self, s: Seq<u8>) -> bool {
        &&& self.ab_sig@ == s.subrange(0, 8)
        &&& self.sector_shift as nat == le16_at(s, 30)
        &&& self.mini_sector_shift as nat == le16_at(s, 32)
        &&& self.sect_dir_start as nat == le32_at(s, 48)
        &&& self.mini_sector_cutoff as nat == le32_at(s, 56)
        &&& self.sect_mini_fat_start as nat == le32_at(s, 60)
        &&& self.sect_dif_start as nat == le32_at(s, 68)
        &&& self.sect_fat@ == words_of(s.subrange(76, 512))
    }

    /// Reads the header from the start of a compound file image.
    pub fn from_slice(s: &[u8]) -> (r: ExcelResult<Header>)
        ensures
            s@.len() >= 512 ==> r is Ok && r->Ok_0.parsed_from(s@),
            s@.len() < 512 ==> r is Err && r->Err_0 is Io,
    {
        if s.len() < HEADER_LEN {
            return Err(eof());
        }
        let mut ab_sig: Vec<u8> = Vec::new();
        let mut i: usize = 0;
        while i < 8
            invariant
                i <= 8 <= s@.len(),
                ab_sig@ == s@.subrange(0, i as int),
            decreases 8 - i,
        {
            ab_sig.push(s[i]);
            i = i + 1;
            assert(ab_sig@ =~= s@.subrange(0, i as int));
        }
        let mut sect_fat: Vec<u32> = Vec::new();
        push_words(s, 76, 109, &mut sect_fat);
        assert(sect_fat@ =~= words_of(s@.subrange(76, 512)));
        Ok(Header {
            ab_sig,
            sector_shift: read_u16_at(s, 30),
            mini_sector_shift: read_u16_at(s, 32),
            sect_dir_start: read_u32_at(s, 48),
            mini_sector_cutoff: read_u32_at(s, 56),
            sect_mini_fat_start: read_u32_at(s, 60),
            sect_dif_start: read_u32_at(s, 68),
            sect_fat,
        })
    }
}

/// The ids of the chain that starts at `s`, following `fats`, each below
/// `count`; `None` when an id is out of range or the chain is longer than `fuel`.
pub open spec fn chain_ids(fats: Seq<u32>, count: nat, s: u32, fuel: nat) -> Option<Seq<u32>>
    decreases fuel,
{
    if s == ENDOFCHAIN {
        Some(Seq::empty())
    } else if fuel == 0 || s >= count || s >= fats.len() {
        None
    } else {
        match chain_ids(fats, count, fats[s as int], (fuel - 1) as nat) {
            Some(rest) => Some(seq![s] + rest),
            None => None,
        }
    }
}

/// Bytes `[id * size, (id + 1) * size)` of `data`.
pub open spec fn sector_of(data: Seq<u8>, size: nat, id: u32) -> Seq<u8> {
    data.subrange(id * size, (id + 1) * size)
}

/// The sectors `ids` of `data`, one after the other.
pub open spec fn sectors_bytes(data: Seq<u8>, size: nat, ids: Seq<u32>) -> Seq<u8>
    decreases ids.len(),
{
    if ids.len() == 0 {
        Seq::empty()
    } else {
        sectors_bytes(data, size, ids.drop_last()) + sector_of(data, size, ids.last())
    }
}

/// A pool of equal-sized sectors with the allocation table that chains them.
pub struct Sector {
    pub data: Vec<u8>,
    pub size: usize,
    pub fats: Vec<u32>,
}

proof fn lemma_sector_in_bounds(id: nat, size: nat, len: nat)
    requires
        size >= 1,
        id < len / size,
    ensures
        (id + 1) * size <= len,
        id * size + size == (id + 1) * size,
{
    assert((len / size) * size <= len) by (nonlinear_arith)
        requires
            size >= 1,
    {
        vstd::arithmetic::div_mod::lemma_fundamental_div_mod(len as int, size as int);
    }
    assert((id + 1) * size <= (len / size) * size) by (nonlinear_arith)
        requires
            id + 1 <= len / size,
    ;
    assert(id * size + size == (id + 1) * size) by (nonlinear_arith);
}

pub proof fn lemma_sectors_bytes_len(data: Seq<u8>, size: nat, ids: Seq<u32>)
    requires
        forall|i: int| 0 <= i < ids.len() ==> (#[trigger] ids[i] + 1) * size <= data.len(),
    ensures
        sectors_bytes(data, size, ids).len() == ids.len() * size,
    decreases ids.len(),
{
    if ids.len() > 0 {
        lemma_sectors_bytes_len(data, size, ids.drop_last());
        let id = ids.last();
        assert((id + 1) * size <= data.len());
        assert((id + 1) * size == id * size + size) by (nonlinear_arith);
        assert(ids.len() * size == (ids.len() - 1) * size + size) by (nonlinear_arith);
    }
}

proof fn lemma_chain_ids_in_pool(fats: Seq<u32>, count: nat, s: u32, fuel: nat)
    requires
        chain_ids(fats, count, s, fuel) is Some,
    ensures
        chain_ids(fats, count, s, fuel)->0.len() <= fuel,
        forall|i: int| 0 <= i < chain_ids(fats, count, s, fuel)->0.len()
            ==> #[trigger] chain_ids(fats, count, s, fuel)->0[i] < count,
    decreases fuel,
{
    if s != ENDOFCHAIN {
        let next = fats[s as int];
        lemma_chain_ids_in_pool(fats, count, next, (fuel - 1) as nat);
        let rest = chain_ids(fats, count, next, (fuel - 1) as nat)->0;
        let ids = chain_ids(fats, count, s, fuel)->0;
        assert(ids == seq![s] + rest);
        assert forall|i: int| 0 <= i < ids.len() implies #[trigger] ids[i] < count by {
            if i > 0 {
                assert(ids[i] == rest[i - 1]);
            }
        }
    }
}

/// A chain that reads without error visits at most every sector of the
/// pool once, and holds whole sectors only.
pub proof fn lemma_chain_whole_sectors(sec: Sector, s: u32)
    requires
        sec.wf(),
        sec.chain_spec(s) is Some,
    ensures
        sec.chain_spec(s)->0.len() % (sec.size as nat) == 0,
        sec.chain_spec(s)->0.len() <= sec.data@.len(),
{
    let n = sec.count();
    let size = sec.size as nat;
    lemma_chain_ids_in_pool(sec.fats@, n, s, n);
    let ids = chain_ids(sec.fats@, n, s, n)->0;
    assert forall|i: int| 0 <= i < ids.len() implies (#[trigger] ids[i] + 1) * size <= sec.data@.len() by {
        lemma_sector_in_bounds(ids[i] as nat, size, sec.data@.len());
    }
    lemma_sectors_bytes_len(sec.data@, size, ids);
    vstd::arithmetic::div_mod::lemma_mod_multiples_basic(ids.len() as int, size as int);
    assert(ids.len() * size <= n * size) by (nonlinear_arith)
        requires
            ids.len() <= n,
    ;
    assert(n * size <= sec.data@.len()) by {
        vstd::arithmetic::div_mod::lemma_fundamental_div_mod(sec.data@.len() as int, size as int);
        assert(n * size == size * n) by (nonlinear_arith);
    }
}

proof fn lemma_distinct_ids_fit(ids: Seq<u32>, count: nat)
    requires
        ids.no_duplicates(),
        forall|i: int| 0 <= i < ids.len() ==> #[trigger] ids[i] < count,
    ensures
        ids.len() <= count,
{
    let t = ids.map_values(|x: u32| x as int);
    assert(t.no_duplicates()) by {
        assert forall|i: int, j: int| 0 <= i < t.len() && 0 <= j < t.len() && i != j implies t[i] != t[j] by {
            assert(ids[i] != ids[j]);
        }
    }
    t.unique_seq_to_set();
    vstd::set_lib::lemma_int_range(0, count as int);
    assert(t.to_set().subset_of(vstd::set_lib::set_int_range(0, count as int))) by {
        assert forall|x: int| t.to_set().contains(x) implies vstd::set_lib::set_int_range(0, count as int).contains(x) by {
            let i = choose|i: int| 0 <= i < t.len() && t[i] == x;
            assert(ids[i] < count);
        }
    }
    vstd::set_lib::lemma_len_subset(t.to_set(), vstd::set_lib::set_int_range(0, count as int));
}

/// `ids` is the chain from its first id: each id is followed by the one its
/// FAT entry names, the last one's entry is `ENDOFCHAIN`.
pub open spec fn follows_fat(fats: Seq<u32>, count: nat, ids: Seq<u32>) -> bool {
    &&& forall|i: int| 0 <= i < ids.len() ==> #[trigger] ids[i] < count && ids[i] < fats.len() && ids[i] != ENDOFCHAIN
    &&& forall|i: int| 0 <= i < ids.len() - 1 ==> fats[#[trigger] ids[i] as int] == ids[i + 1]
    &&& ids.len() > 0 ==> fats[ids.last() as int] == ENDOFCHAIN
}

proof fn lemma_chain_ids_of(fats: Seq<u32>, count: nat, ids: Seq<u32>, j: int, fuel: nat)
    requires
        follows_fat(fats, count, ids),
        0 <= j < ids.len(),
        fuel >= ids.len() - j,
    ensures
        chain_ids(fats, count, ids[j], fuel) == Some(ids.subrange(j, ids.len() as int)),
    decreases ids.len() - j,
{
    let next = fats[ids[j] as int];
    assert(ids[j] < count && ids[j] < fats.len() && ids[j] != ENDOFCHAIN);
    assert(fuel >= 1);
    if j + 1 < ids.len() {
        assert(next == ids[j + 1]);
        lemma_chain_ids_of(fats, count, ids, j + 1, (fuel - 1) as nat);
        assert(seq![ids[j]] + ids.subrange(j + 1, ids.len() as int) =~= ids.subrange(j, ids.len() as int));
    } else {
        assert(next == ENDOFCHAIN);
        assert(chain_ids(fats, count, next, (fuel - 1) as nat) == Some(Seq::<u32>::empty()));
        assert(seq![ids[j]] + Seq::<u32>::empty() =~= ids.subrange(j, ids.len() as int));
    }
}

/// A chain of distinct sectors, each followed by the one its FAT entry
/// names and ended by `ENDOFCHAIN`, reads as those sectors one after the
/// other: a whole number of sectors.
pub proof fn lemma_chain_reads_sectors(sec: Sector, ids: Seq<u32>)
    requires
        sec.wf(),
        ids.len() > 0,
        ids.no_duplicates(),
        follows_fat(sec.fats@, sec.count(), ids),
    ensures
        sec.chain_spec(ids[0]) == Some(sectors_bytes(sec.data@, sec.size as nat, ids)),
        sectors_bytes(sec.data@, sec.size as nat, ids).len() == ids.len() * sec.size,
{
    let n = sec.count();
    assert forall|i: int| 0 <= i < ids.len() implies #[trigger] ids[i] < n by {}
    lemma_distinct_ids_fit(ids, n);
    lemma_chain_ids_of(sec.fats@, n, ids, 0, n);
    assert(ids.subrange(0, ids.len() as int) =~= ids);
    assert forall|i: int| 0 <= i < ids.len() implies (#[trigger] ids[i] + 1) * (sec.size as nat) <= sec.data@.len() by {
        lemma_sector_in_bounds(ids[i] as nat, sec.size as nat, sec.data@.len());
    }
    lemma_sectors_bytes_len(sec.data@, sec.size as nat, ids);
}

impl Sector {
    pub open spec fn wf(&self) -> bool {
        self.size >= 1 && self.data@.len() % (self.size as nat) == 0
    }

    /// The number of sectors in the pool.
    pub open spec fn count(&self) -> nat {
        self.data@.len() / (self.size as nat)
    }

    /// The bytes of the chain that starts at `s`.
    pub open spec fn chain_spec(&self, s: u32) -> Option<Seq<u8>> {
        match chain_ids(self.fats@, self.count(), s, self.count()) {
            Some(ids) => Some(sectors_bytes(self.data@, self.size as nat, ids)),
            None => None,
        }
    }

    pub fn new(data: Vec<u8>, size: usize) -> (r: Sector)
        requires
            size >= 1,
            data@.len() % (size as nat) == 0,
        ensures
            r.wf(),
            r.data@ == data@,
            r.size == size,
            r.fats@.len() == 0,
    {
        Sector { data, size, fats: Vec::new() }
    }

    pub fn with_fats(self, fats: Vec<u32>) -> (r: Sector)
        ensures
            r.data@ == self.data@,
            r.size == self.size,
            r.fats@ == fats@,
    {
        let mut s = self;
        s.fats = fats;
        s
    }

    /// Appends sector `id` to `buf`.
    fn get(&self, id: u32, buf: &mut Vec<u8>)
        requires
            self.wf(),
            id < self.count(),
        ensures
            final(buf)@ == old(buf)@ + sector_of(self.data@, self.size as nat, id),
    {
        proof {
            lemma_sector_in_bounds(id as nat, self.size as nat, self.data@.len());
        }
        let total = self.data.len();
        assert(id * self.size <= total);
        let lo: usize = id as usize * self.size;
        let hi: usize = lo + self.size;
        let ghost before = buf@;
        let mut i: usize = lo;
        while i < hi
            invariant
                lo <= i <= hi <= self.data@.len(),
                lo == id * self.size,
                hi == (id + 1) * self.size,
                buf@ == before + self.data@.subrange(lo as int, i as int),
            decreases hi - i,
        {
            buf.push(self.data[i]);
            i = i + 1;
            assert(buf@ =~= before + self.data@.subrange(lo as int, i as int));
        }
    }

    /// Reads the chain of sectors that starts at `sector_id`, up to `ENDOFCHAIN`.
    /// A chain that leaves the pool or the table, or that visits more sectors
    /// than the pool holds (a loop), is an error.
    pub fn read_chain(&self, sector_id: u32) -> (r: ExcelResult<Vec<u8>>)
        requires
            self.wf(),
        ensures
            match self.chain_spec(sector_id) {
                Some(b) => r is Ok && r->Ok_0@ == b,
                None => r is Err && r->Err_0 is Malformed,
            },
            r is Ok ==> r->Ok_0@.len() % (self.size as nat) == 0,
    {
        let n = self.data.len() / self.size;
        let ghost target = chain_ids(self.fats@, self.count(), sector_id, self.count());
        let ghost mut done: Seq<u32> = Seq::empty();
        let mut s = sector_id;
        let mut fuel = n;
        let mut buf: Vec<u8> = Vec::new();
        while s != ENDOFCHAIN
            invariant
                self.wf(),
                n == self.count(),
                target == chain_ids(self.fats@, self.count(), sector_id, self.count()),
                target == match chain_ids(self.fats@, n as nat, s, fuel as nat) {
                    Some(rest) => Some(done + rest),
                    None => None,
                },
                buf@ == sectors_bytes(self.data@, self.size as nat, done),
                forall|i: int| 0 <= i < done.len() ==> #[trigger] done[i] < n,
            decreases fuel,
        {
            if fuel == 0 || s as usize >= n || s as usize >= self.fats.len() {
                return Err(malformed("invalid sector chain"));
            }
            self.get(s, &mut buf);
            proof {
                assert(done.push(s).drop_last() =~= done);
                let rest = chain_ids(self.fats@, n as nat, self.fats@[s as int], (fuel - 1) as nat);
                if let Some(r2) = rest {
                    assert(done + (seq![s] + r2) =~= done.push(s) + r2);
                }
                done = done.push(s);
            }
            s = self.fats[s as usize];
            fuel = fuel - 1;
        }
        proof {
            assert(done + Seq::<u32>::empty() =~= done);
            assert forall|i: int| 0 <= i < done.len() implies (#[trigger] done[i] + 1) * (self.size as nat) <= self.data@.len() by {
                lemma_sector_in_bounds(done[i] as nat, self.size as nat, self.data@.len());
            }
            lemma_sectors_bytes_len(self.data@, self.size as nat, done);
            vstd::arithmetic::div_mod::lemma_mod_multiples_basic(done.len() as int, self.size as int);
        }
        Ok(buf)
    }
}

/// The text that a UTF-16LE decoder gives for `b`, dropping what it cannot decode.
pub uninterp spec fn utf16le_text_of(b: Seq<u8>) -> Seq<char>;

/// Relies on `encoding::all::UTF_16LE.decode` with `DecoderTrap::Ignore`: the
/// trap drops each undecodable unit and lets decoding go on, so the call
/// returns `Ok`, with a text that depends on the bytes alone.
#[verifier::external_body]
fn decode_utf16le(b: &[u8]) -> (r: Result<String, String>)
    ensures
        r is Ok,
        r->Ok_0@ == utf16le_text_of(b@),
{
    encoding::all::UTF_16LE.decode(b, encoding::DecoderTrap::Ignore).map_err(|e| e.into_owned())
}

/// The index of the first zero byte of `s` at or after `i`, or its length.
pub open spec fn first_zero(s: Seq<u8>, i: int) -> int
    decreases s.len() - i,
{
    if 0 <= i < s.len() && s[i] != 0 {
        first_zero(s, i + 1)
    } else {
        i
    }
}

/// The bytes of `s` before its first zero byte.
pub open spec fn before_nul(s: Seq<u8>) -> Seq<u8> {
    s.subrange(0, first_zero(s, 0))
}

/// A 128-byte directory entry.
pub struct Directory {
    /// The entry's name, UTF-16LE, padded with zeros.
    pub ab: Vec<u8>,
    pub cb: u16,
    pub mse: u8,
    pub flags: u8,
    pub id_left_sib: u32,
    pub id_right_sib: u32,
    pub id_child: u32,
    pub sect_start: u32,
    pub ul_size: u32,
    pub dpt_prop_type: u16,
}

/// Reads the UTF-8 name that a directory entry's raw name bytes give: the
/// UTF-16LE text, cut before its first zero byte.
pub open spec fn dir_name_of(ab: Seq<u8>) -> Seq<u8> {
    before_nul(encode_utf8(utf16le_text_of(ab)))
}

impl Directory {
    /// The entry laid out from byte `p` of `s`.
    pub open spec fn parsed_from(self, s: Seq<u8>, p: int) -> bool {
        &&& self.ab@ == s.subrange(p, p + 64)
        &&& self.cb as nat == le16_at(s, p + 64)
        &&& self.mse == s[p + 66]
        &&& self.flags == s[p + 67]
        &&& self.id_left_sib as nat == le32_at(s, p + 68)
        &&& self.id_right_sib as nat == le32_at(s, p + 72)
        &&& self.id_child as nat == le32_at(s, p + 76)
        &&& self.sect_start as nat == le32_at(s, p + 116)
        &&& self.ul_size as nat == le32_at(s, p + 120)
        &&& self.dpt_prop_type as nat == le16_at(s, p + 124)
    }

    /// Reads the entry at byte `p` of `s`; its fields take 126 bytes.
    pub fn from_slice(s: &[u8], p: usize) -> (r: ExcelResult<Directory>)
        requires
            p <= s@.len(),
        ensures
            s@.len() - p >= 126 ==> r is Ok && r->Ok_0.parsed_from(s@, p as int),
            s@.len() - p < 126 ==> r is Err && r->Err_0 is Io,
    {
        if s.len() - p < 126 {
            return Err(eof());
        }
        let mut ab: Vec<u8> = Vec::new();
        let total = s.len();
        let mut i: usize = 0;
        while i < 64
            invariant
                i <= 64,
                total == s@.len(),
                p + 126 <= s@.len(),
                ab@ == s@.subrange(p as int, p + i),
            decreases 64 - i,
        {
            ab.push(s[p + i]);
            i = i + 1;
            assert(ab@ =~= s@.subrange(p as int, p + i));
        }
        Ok(Directory {
            ab,
            cb: read_u16_at(s, p + 64),
            mse: s[p + 66],
            flags: s[p + 67],
            id_left_sib: read_u32_at(s, p + 68),
            id_right_sib: read_u32_at(s, p + 72),
            id_child: read_u32_at(s, p + 76),
            sect_start: read_u32_at(s, p + 116),
            ul_size: read_u32_at(s, p + 120),
            dpt_prop_type: read_u16_at(s, p + 124),
        })
    }

    /// The entry's name as UTF-8 bytes, cut before the first zero byte.
    pub fn get_name(&self) -> (r: Vec<u8>)
        ensures
            r@ == dir_name_of(self.ab@),
    {
        let text = match decode_utf16le(self.ab.as_slice()) {
            Ok(t) => t,
            Err(t) => t,
        };
        let b = text.as_str().as_bytes();
        let mut out: Vec<u8> = Vec::new();
        let mut i: usize = 0;
        while i < b.len() && b[i] != 0
            invariant
                i <= b@.len(),
                out@ == b@.subrange(0, i as int),
                first_zero(b@, 0) == first_zero(b@, i as int),
            decreases b.len() - i,
        {
            out.push(b[i]);
            i = i + 1;
            assert(out@ =~= b@.subrange(0, i as int));
        }
        out
    }
}

/// The FAT-sector list: `fs`, then the ids that the DIF chain from `s` holds
/// (all words of each DIF sector but the last, which points to the next one).
/// `None` when the chain leaves the pool or visits more than `fuel` sectors.
pub open spec fn dif_spec(data: Seq<u8>, size: nat, s: u32, fs: Seq<u32>, fuel: nat) -> Option<Seq<u32>>
    decreases fuel,
{
    if s == FREESECT || s == ENDOFCHAIN {
        Some(fs)
    } else if fuel == 0 || size == 0 || s >= data.len() / size {
        None
    } else {
        let w = words_of(sector_of(data, size, s));
        if w.len() == 0 {
            None
        } else {
            dif_spec(data, size, w.last(), fs + w.drop_last(), (fuel - 1) as nat)
        }
    }
}

/// The master FAT: the words of each sector that `fs` names, in order, `FREESECT` ids skipped.
pub open spec fn fat_spec(data: Seq<u8>, size: nat, fs: Seq<u32>) -> Option<Seq<u32>>
    decreases fs.len(),
{
    if fs.len() == 0 {
        Some(Seq::empty())
    } else {
        match fat_spec(data, size, fs.drop_last()) {
            None => None,
            Some(f) => if fs.last() == FREESECT {
                Some(f)
            } else if size == 0 || fs.last() >= data.len() / size {
                None
            } else {
                Some(f + words_of(sector_of(data, size, fs.last())))
            },
        }
    }
}

impl Sector {
    /// Walks the DIF chain from `start`, extending the FAT-sector list `fs`.
    pub fn load_fat_sectors(&self, start: u32, embedded: Vec<u32>) -> (r: ExcelResult<Vec<u32>>)
        requires
            self.wf(),
            self.size % 4 == 0,
        ensures
            match dif_spec(self.data@, self.size as nat, start, embedded@, self.count()) {
                Some(v) => r is Ok && r->Ok_0@ == v,
                None => r is Err,
            },
    {
        let n = self.data.len() / self.size;
        let ghost target = dif_spec(self.data@, self.size as nat, start, embedded@, self.count());
        let ghost fs0 = embedded@;
        let mut fs = embedded;
        let mut s = start;
        let mut fuel = n;
        while s != FREESECT && s != ENDOFCHAIN
            invariant
                target == dif_spec(self.data@, self.size as nat, start, fs0, self.count()),
                fs0 == embedded@,
                self.wf(),
                self.size % 4 == 0,
                n == self.count(),
                target == dif_spec(self.data@, self.size as nat, s, fs@, fuel as nat),
            decreases fuel,
        {
            if fuel == 0 || s as usize >= n {
                assert(dif_spec(self.data@, self.size as nat, s, fs@, fuel as nat) is None);
                return Err(malformed("invalid DIF chain"));
            }
            let mut buf: Vec<u8> = Vec::new();
            self.get(s, &mut buf);
            assert(buf@ =~= sector_of(self.data@, self.size as nat, s));
            proof {
                lemma_sector_in_bounds(s as nat, self.size as nat, self.data@.len());
            }
            let words = to_u32_vec(buf.as_slice())?;
            let ghost before = fs@;
            let mut i: usize = 0;
            if words.len() == 0 {
                return Err(malformed("empty DIF sector"));
            }
            while i < words.len() - 1
                invariant
                    i + 1 <= words@.len(),
                    fs@ == before + words@.subrange(0, i as int),
                decreases words@.len() - i,
            {
                fs.push(words[i]);
                i = i + 1;
                assert(fs@ =~= before + words@.subrange(0, i as int));
            }
            assert(words@.subrange(0, i as int) =~= words@.drop_last());
            s = words[words.len() - 1];
            fuel = fuel - 1;
        }
        Ok(fs)
    }

    /// Builds the master FAT from the FAT-sector list.
    pub fn load_fat(&self, fs: &Vec<u32>) -> (r: ExcelResult<Vec<u32>>)
        requires
            self.wf(),
            self.size % 4 == 0,
        ensures
            match fat_spec(self.data@, self.size as nat, fs@) {
                Some(v) => r is Ok && r->Ok_0@ == v,
                None => r is Err,
            },
    {
        let n = self.data.len() / self.size;
        let mut fat: Vec<u32> = Vec::new();
        let mut i: usize = 0;
        while i < fs.len()
            invariant
                self.wf(),
                self.size % 4 == 0,
                n == self.count(),
                i <= fs@.len(),
                fat_spec(self.data@, self.size as nat, fs@.subrange(0, i as int)) == Some(fat@),
            decreases fs@.len() - i,
        {
            let id = fs[i];
            assert(fs@.subrange(0, i + 1).drop_last() =~= fs@.subrange(0, i as int));
            if id != FREESECT {
                if id as usize >= n {
                    proof {
                        lemma_fat_prefix_fails(self.data@, self.size as nat, fs@, i as int + 1);
                    }
                    return Err(malformed("FAT sector out of range"));
                }
                let mut buf: Vec<u8> = Vec::new();
                self.get(id, &mut buf);
                assert(buf@ =~= sector_of(self.data@, self.size as nat, id));
                proof {
                    lemma_sector_in_bounds(id as nat, self.size as nat, self.data@.len());
                }
                let words = to_u32_vec(buf.as_slice())?;
                let mut j: usize = 0;
                let ghost before = fat@;
                while j < words.len()
                    invariant
                        j <= words@.len(),
                        fat@ == before + words@.subrange(0, j as int),
                    decreases words@.len() - j,
                {
                    fat.push(words[j]);
                    j = j + 1;
                    assert(fat@ =~= before + words@.subrange(0, j as int));
                }
                assert(words@.subrange(0, j as int) =~= words@);
            }
            i = i + 1;
        }
        assert(fs@.subrange(0, i as int) =~= fs@);
        Ok(fat)
    }
}

proof fn lemma_fat_prefix_fails(data: Seq<u8>, size: nat, fs: Seq<u32>, k: int)
    requires
        0 <= k <= fs.len(),
        fat_spec(data, size, fs.subrange(0, k)) is None,
    ensures
        fat_spec(data, size, fs) is None,
    decreases fs.len() - k,
{
    if k < fs.len() {
        assert(fs.subrange(0, k + 1).drop_last() =~= fs.subrange(0, k));
        lemma_fat_prefix_fails(data, size, fs, k + 1);
    } else {
        assert(fs.subrange(0, k) =~= fs);
    }
}

/// Every 128-byte record of a directory buffer of length `len` holds the
/// 126 bytes that an entry's fields take.
pub open spec fn records_complete(len: nat) -> bool {
    forall|i: int| i >= 0 ==> #[trigger] record_fits(len, i)
}

/// Record `i`, if the buffer reaches it, has room for an entry's fields.
pub open spec fn record_fits(len: nat, i: int) -> bool {
    128 * i < len ==> len - 128 * i >= 126
}

/// Splits the directory buffer into 128-byte records and reads an entry from each.
pub fn read_directories(buf: &[u8]) -> (r: ExcelResult<Vec<Directory>>)
    ensures
        r is Ok <==> records_complete(buf@.len()),
        r is Ok ==> r->Ok_0@.len() == (buf@.len() + 127) / 128,
        r is Ok ==> forall|i: int| 0 <= i < r->Ok_0@.len() ==> (#[trigger] r->Ok_0@[i]).parsed_from(buf@, 128 * i),
{
    let mut dirs: Vec<Directory> = Vec::new();
    let mut p: usize = 0;
    while p < buf.len()
        invariant
            p == 128 * dirs@.len(),
            p < buf@.len() || dirs@.len() == 0,
            forall|i: int| 0 <= i < dirs@.len() ==> #[trigger] record_fits(buf@.len(), i),
            forall|i: int| 0 <= i < dirs@.len() ==> (#[trigger] dirs@[i]).parsed_from(buf@, 128 * i),
        decreases buf@.len() + 128 - p,
    {
        let d = Directory::from_slice(buf, p);
        match d {
            Ok(d) => {
                dirs.push(d);
            },
            Err(e) => {
                assert(!record_fits(buf@.len(), dirs@.len() as int));
                return Err(e);
            },
        }
        if buf.len() - p <= 128 {
            assert forall|i: int| i >= 0 implies #[trigger] record_fits(buf@.len(), i) by {
                if i < dirs@.len() - 1 {
                } else if i > dirs@.len() - 1 {
                    assert(128 * i >= buf@.len());
                }
            }
            return Ok(dirs);
        }
        p = p + 128;
    }
    assert forall|i: int| i >= 0 implies #[trigger] record_fits(buf@.len(), i) by {
        assert(128 * i >= buf@.len());
    }
    Ok(dirs)
}

} // verus!
