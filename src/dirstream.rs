//! The records of a decompressed VBA `dir` stream: the project header, the
//! references and the modules.
use vstd::prelude::*;
use vstd::utf8::{decode_utf8, valid_utf8};
use crate::cfb::{le16_at, le32_at, read_u16_at, read_u32_at};
use crate::error::{bad_encoding, eof, malformed, ExcelResult};

verus! {

/// The position after `n` bytes from `p`.
pub open spec fn skip_spec(s: Seq<u8>, p: int, n: nat) -> Option<int> {
    if 0 <= p && p + n <= s.len() {
        Some(p + n)
    } else {
        None
    }
}

/// The position after a field of a 32-bit length and that many bytes.
pub open spec fn sized_spec(s: Seq<u8>, p: int) -> Option<int> {
    if 0 <= p && p + 4 <= s.len() {
        skip_spec(s, p + 4, le32_at(s, p))
    } else {
        None
    }
}

/// The bytes of the sized field at `p`.
pub open spec fn sized_bytes(s: Seq<u8>, p: int) -> Seq<u8> {
    s.subrange(p + 4, p + 4 + le32_at(s, p))
}

/// The position after a run of fields: an entry `n > 0` is `n` bytes, an
/// entry 0 a sized field.
pub open spec fn fields_spec(s: Seq<u8>, p: int, layout: Seq<usize>) -> Option<int>
    decreases layout.len(),
{
    if layout.len() == 0 {
        Some(p)
    } else {
        let next = if layout[0] == 0 {
            sized_spec(s, p)
        } else {
            skip_spec(s, p, layout[0] as nat)
        };
        match next {
            Some(q) => fields_spec(s, q, layout.drop_first()),
            None => None,
        }
    }
}

/// The project information records before the references: syskind, lcid,
/// lcid-invoke, codepage, name, docstring (and its unicode form), two help
/// files, help context, lib flags, version, constants (and their unicode form).
pub open spec fn dir_header_layout() -> Seq<usize> {
    seq![10, 10, 10, 8, 2, 0, 2, 0, 2, 0, 2, 0, 2, 0, 10, 10, 12, 2, 0, 2, 0]
}

/// The UTF-8 text of the sized field at `p`, when it is valid.
pub open spec fn sized_text(s: Seq<u8>, p: int) -> Option<Seq<char>> {
    if valid_utf8(sized_bytes(s, p)) {
        Some(decode_utf8(sized_bytes(s, p)))
    } else {
        None
    }
}

/// Relies on `String::from_utf8`: it succeeds exactly on valid UTF-8, with
/// the text that the bytes encode.
#[verifier::external_body]
pub(crate) fn utf8_text(b: &[u8]) -> (r: Option<String>)
    ensures
        r is Some <==> valid_utf8(b@),
        r is Some ==> r->0@ == decode_utf8(b@),
{
    String::from_utf8(b.to_vec()).ok()
}

fn skip(s: &[u8], p: usize, n: usize) -> (r: ExcelResult<usize>)
    requires
        p <= s@.len(),
    ensures
        match skip_spec(s@, p as int, n as nat) {
            Some(q) => r is Ok && r->Ok_0 == q,
            None => r is Err && r->Err_0 is Io,
        },
        s@.len() <= usize::MAX,
{
    if s.len() - p < n {
        Err(eof())
    } else {
        Ok(p + n)
    }
}

fn read_u16(s: &[u8], p: usize) -> (r: ExcelResult<u16>)
    requires
        p <= s@.len(),
    ensures
        p + 2 <= s@.len() ==> r is Ok && r->Ok_0 as nat == le16_at(s@, p as int),
        p + 2 > s@.len() ==> r is Err && r->Err_0 is Io,
        s@.len() <= usize::MAX,
{
    if s.len() - p < 2 {
        Err(eof())
    } else {
        Ok(read_u16_at(s, p))
    }
}

fn read_u32(s: &[u8], p: usize) -> (r: ExcelResult<u32>)
    requires
        p <= s@.len(),
    ensures
        p + 4 <= s@.len() ==> r is Ok && r->Ok_0 as nat == le32_at(s@, p as int),
        p + 4 > s@.len() ==> r is Err && r->Err_0 is Io,
{
    if s.len() - p < 4 {
        Err(eof())
    } else {
        Ok(read_u32_at(s, p))
    }
}

fn skip_sized(s: &[u8], p: usize) -> (r: ExcelResult<usize>)
    requires
        p <= s@.len(),
    ensures
        match sized_spec(s@, p as int) {
            Some(q) => r is Ok && r->Ok_0 == q,
            None => r is Err && r->Err_0 is Io,
        },
{
    if s.len() - p < 4 {
        return Err(eof());
    }
    let len = read_u32_at(s, p);
    skip(s, p + 4, len as usize)
}

/// Reads the sized field at `p` as UTF-8 text.
fn sized_string(s: &[u8], p: usize) -> (r: ExcelResult<(String, usize)>)
    requires
        p <= s@.len(),
    ensures
        match sized_spec(s@, p as int) {
            None => r is Err && r->Err_0 is Io,
            Some(q) => match sized_text(s@, p as int) {
                Some(t) => r is Ok && r->Ok_0.0@ == t && r->Ok_0.1 == q,
                None => r is Err && r->Err_0 is Encoding,
            },
        },
{
    let q = skip_sized(s, p)?;
    match utf8_text(&s[p + 4..q]) {
        Some(t) => Ok((t, q)),
        None => Err(bad_encoding("invalid UTF-8 in a record")),
    }
}

/// Skips a run of fields laid out as `layout` says.
fn skip_fields(s: &[u8], p: usize, layout: Vec<usize>) -> (r: ExcelResult<usize>)
    requires
        p <= s@.len(),
    ensures
        match fields_spec(s@, p as int, layout@) {
            Some(q) => r is Ok && r->Ok_0 == q,
            None => r is Err && r->Err_0 is Io,
        },
        r is Ok ==> p <= r->Ok_0 <= s@.len(),
{
    let mut q = p;
    let mut i: usize = 0;
    assert(layout@.subrange(0, layout@.len() as int) =~= layout@);
    while i < layout.len()
        invariant
            p <= q <= s@.len(),
            i <= layout@.len(),
            fields_spec(s@, p as int, layout@) == fields_spec(s@, q as int, layout@.subrange(i as int, layout@.len() as int)),
        decreases layout@.len() - i,
    {
        let ghost rest = layout@.subrange(i as int, layout@.len() as int);
        assert(rest.drop_first() =~= layout@.subrange(i + 1, layout@.len() as int));
        if layout[i] == 0 {
            q = skip_sized(s, q)?;
        } else {
            q = skip(s, q, layout[i])?;
        }
        i = i + 1;
    }
    assert(layout@.subrange(i as int, layout@.len() as int) =~= Seq::<usize>::empty());
    Ok(q)
}

/// Skips the project information records that open the stream.
pub fn read_dir_header(s: &[u8]) -> (r: ExcelResult<usize>)
    ensures
        match fields_spec(s@, 0, dir_header_layout()) {
            Some(q) => r is Ok && r->Ok_0 == q,
            None => r is Err && r->Err_0 is Io,
        },
        r is Ok ==> r->Ok_0 <= s@.len(),
{
    let layout: Vec<usize> = vec![10, 10, 10, 8, 2, 0, 2, 0, 2, 0, 2, 0, 2, 0, 10, 10, 12, 2, 0, 2, 0];
    assert(layout@ =~= dir_header_layout());
    skip_fields(s, 0, layout)
}

/// A reference as plain values: name, description, path.
pub type RefView = (Seq<char>, Seq<char>, Seq<char>);

/// An external reference of the project.
#[derive(Debug)]
pub struct Reference {
    pub name: String,
    pub description: String,
    pub path: String,
}

impl View for Reference {
    type V = RefView;

    open spec fn view(&self) -> RefView {
        (self.name@, self.description@, self.path@)
    }
}

impl Reference {
    pub fn duplicate(&self) -> (r: Reference)
        ensures
            r@ == self@,
    {
        Reference {
            name: self.name.clone(),
            description: self.description.clone(),
            path: self.path.clone(),
        }
    }
}

pub open spec fn ref_views(v: Seq<Reference>) -> Seq<RefView> {
    v.map_values(|r: Reference| r@)
}

/// The list after the in-flight reference is committed: only a named one counts.
pub open spec fn commit(acc: Seq<RefView>, cur: RefView) -> Seq<RefView> {
    if cur.0.len() > 0 {
        acc.push(cur)
    } else {
        acc
    }
}

/// The index of the last `#` in `b` before `end`, or -1.
pub open spec fn last_hash(b: Seq<u8>, end: int) -> int
    decreases end,
{
    if end <= 0 {
        -1
    } else if b[end - 1] == 0x23 {
        end - 1
    } else {
        last_hash(b, end - 1)
    }
}

/// The reference after a registered libid `b`: its last `#`-separated
/// segment is the description, the one before it (if any) the path.
pub open spec fn registered_spec(b: Seq<u8>, cur: RefView) -> Option<RefView> {
    let h1 = last_hash(b, b.len() as int);
    let desc = b.subrange(h1 + 1, b.len() as int);
    let h2 = last_hash(b, h1);
    let path = b.subrange(h2 + 1, h1);
    if !valid_utf8(b) || !valid_utf8(desc) {
        None
    } else if h1 < 0 {
        Some((cur.0, decode_utf8(desc), cur.2))
    } else if !valid_utf8(path) {
        None
    } else {
        Some((cur.0, decode_utf8(desc), decode_utf8(path)))
    }
}

/// The path that an absolute project libid `b` gives: without a leading `*\C`.
pub open spec fn project_path_spec(b: Seq<u8>) -> Option<Seq<char>> {
    let t = if b.len() >= 3 && b[0] == 0x2A && b[1] == 0x5C && b[2] == 0x43 {
        b.subrange(3, b.len() as int)
    } else {
        b
    };
    if !valid_utf8(b) || !valid_utf8(t) {
        None
    } else {
        Some(decode_utf8(t))
    }
}

/// The position after a REFERENCECONTROL record whose body starts at `q`.
pub open spec fn control_spec(s: Seq<u8>, q: int) -> Option<int> {
    match fields_spec(s, q, seq![4usize, 0, 6]) {
        None => None,
        Some(q1) => if q1 + 2 > s.len() {
            None
        } else {
            let q2 = if le16_at(s, q1) == 0x16 {
                fields_spec(s, q1 + 2, seq![0usize, 2, 0, 2])
            } else {
                Some(q1 + 2)
            };
            match q2 {
                None => None,
                Some(q3) => fields_spec(s, q3, seq![4usize, 0, 26]),
            }
        },
    }
}

/// One record of the reference list at `p`: the committed list, the
/// in-flight reference, whether the list has ended, the position after it.
pub open spec fn ref_step(s: Seq<u8>, p: int, cur: RefView, acc: Seq<RefView>)
    -> Option<(Seq<RefView>, RefView, bool, int)>
{
    if p < 0 || p + 2 > s.len() {
        None
    } else {
        let tag = le16_at(s, p);
        let q = p + 2;
        if tag == 0x0F {
            Some((commit(acc, cur), cur, true, q))
        } else if tag == 0x16 {
            match (sized_spec(s, q), sized_text(s, q)) {
                (Some(q1), Some(n)) => match fields_spec(s, q1, seq![2usize, 0]) {
                    Some(q2) => Some((commit(acc, cur), (n, n, seq!['/']), false, q2)),
                    None => None,
                },
                _ => None,
            }
        } else if tag == 0x33 {
            match sized_spec(s, q) {
                Some(q1) => Some((acc, cur, false, q1)),
                None => None,
            }
        } else if tag == 0x2F {
            match control_spec(s, q) {
                Some(q1) => Some((acc, cur, false, q1)),
                None => None,
            }
        } else if tag == 0x0D {
            match fields_spec(s, q, seq![4usize]) {
                None => None,
                Some(q1) => match sized_spec(s, q1) {
                    None => None,
                    Some(q2) => match registered_spec(sized_bytes(s, q1), cur) {
                        None => None,
                        Some(c) => match skip_spec(s, q2, 6) {
                            Some(q3) => Some((acc, c, false, q3)),
                            None => None,
                        },
                    },
                },
            }
        } else if tag == 0x0E {
            match fields_spec(s, q, seq![4usize]) {
                None => None,
                Some(q1) => match sized_spec(s, q1) {
                    None => None,
                    Some(q2) => match project_path_spec(sized_bytes(s, q1)) {
                        None => None,
                        Some(path) => match fields_spec(s, q2, seq![0usize, 6]) {
                            Some(q3) => Some((acc, (cur.0, cur.1, path), false, q3)),
                            None => None,
                        },
                    },
                },
            }
        } else {
            None
        }
    }
}

/// The tags that the reference list knows.
pub open spec fn ref_tag_known(tag: nat) -> bool {
    tag == 0x0F || tag == 0x16 || tag == 0x33 || tag == 0x2F || tag == 0x0D || tag == 0x0E
}

/// The reference list at `p` stops at a record whose tag it does not know.
pub open spec fn refs_unknown_tag(s: Seq<u8>, p: int, cur: RefView, acc: Seq<RefView>) -> bool
    decreases s.len() - p,
{
    match ref_step(s, p, cur, acc) {
        None => 0 <= p && p + 2 <= s.len() && !ref_tag_known(le16_at(s, p)),
        Some(t) => if t.2 || t.3 <= p || t.3 > s.len() {
            false
        } else {
            refs_unknown_tag(s, t.3, t.1, t.0)
        },
    }
}

/// The references of the list that starts at `p`, and the position after its end record.
pub open spec fn refs_spec(s: Seq<u8>, p: int, cur: RefView, acc: Seq<RefView>) -> Option<(Seq<RefView>, int)>
    decreases s.len() - p,
{
    match ref_step(s, p, cur, acc) {
        None => None,
        Some(t) => if t.2 {
            Some((t.0, t.3))
        } else if t.3 <= p || t.3 > s.len() {
            None
        } else {
            refs_spec(s, t.3, t.1, t.0)
        },
    }
}

/// Finds the last `#` in `b` before `end`.
fn find_last_hash(b: &[u8], end: usize) -> (r: (bool, usize))
    requires
        end <= b@.len(),
    ensures
        r.0 ==> last_hash(b@, end as int) == r.1 as int && r.1 < end,
        !r.0 ==> last_hash(b@, end as int) == -1,
{
    let mut i = end;
    while i > 0
        invariant
            i <= end <= b@.len(),
            last_hash(b@, end as int) == last_hash(b@, i as int),
        decreases i,
    {
        if b[i - 1] == 0x23 {
            return (true, i - 1);
        }
        i = i - 1;
    }
    (false, 0)
}

fn text_of(b: &[u8]) -> (r: ExcelResult<String>)
    ensures
        valid_utf8(b@) ==> r is Ok && r->Ok_0@ == decode_utf8(b@),
        !valid_utf8(b@) ==> r is Err && r->Err_0 is Encoding,
{
    match utf8_text(b) {
        Some(t) => Ok(t),
        None => Err(bad_encoding("invalid UTF-8 in a libid")),
    }
}

/// Applies a registered libid to the in-flight reference.
fn apply_registered(b: &[u8], cur: &mut Reference) -> (r: ExcelResult<()>)
    ensures
        match registered_spec(b@, old(cur)@) {
            Some(c) => r is Ok && final(cur)@ == c,
            None => r is Err,
        },
{
    let _whole = text_of(b)?;
    let (found, h1) = find_last_hash(b, b.len());
    let start: usize = if found { h1 + 1 } else { 0 };
    let description = text_of(&b[start..b.len()])?;
    if found {
        let (found2, h2) = find_last_hash(b, h1);
        let from: usize = if found2 { h2 + 1 } else { 0 };
        let path = text_of(&b[from..h1])?;
        cur.description = description;
        cur.path = path;
    } else {
        cur.description = description;
    }
    Ok(())
}

/// The path of an absolute project libid.
fn project_path(b: &[u8]) -> (r: ExcelResult<String>)
    ensures
        match project_path_spec(b@) {
            Some(t) => r is Ok && r->Ok_0@ == t,
            None => r is Err,
        },
{
    let _whole = text_of(b)?;
    if b.len() >= 3 && b[0] == 0x2A && b[1] == 0x5C && b[2] == 0x43 {
        text_of(&b[3..b.len()])
    } else {
        text_of(b)
    }
}

fn skip_control(s: &[u8], q: usize) -> (r: ExcelResult<usize>)
    requires
        q <= s@.len(),
    ensures
        match control_spec(s@, q as int) {
            Some(q1) => r is Ok && r->Ok_0 == q1,
            None => r is Err,
        },
        r is Ok ==> q <= r->Ok_0 <= s@.len(),
{
    let layout: Vec<usize> = vec![4, 0, 6];
    assert(layout@ =~= seq![4usize, 0, 6]);
    let q1 = skip_fields(s, q, layout)?;
    let tag = read_u16(s, q1)?;
    let q3 = if tag == 0x16 {
        let layout: Vec<usize> = vec![0, 2, 0, 2];
        assert(layout@ =~= seq![0usize, 2, 0, 2]);
        skip_fields(s, q1 + 2, layout)?
    } else {
        q1 + 2
    };
    let layout: Vec<usize> = vec![4, 0, 26];
    assert(layout@ =~= seq![4usize, 0, 26]);
    skip_fields(s, q3, layout)
}

fn commit_current(cur: &Reference, acc: &mut Vec<Reference>)
    ensures
        ref_views(final(acc)@) == commit(ref_views(old(acc)@), cur@),
{
    if !cur.name.as_str().is_empty() {
        acc.push(cur.duplicate());
        assert(ref_views(acc@) =~= ref_views(old(acc)@).push(cur@));
    }
}

/// A REFERENCENAME record whose body starts at `q`.
fn name_record(s: &[u8], q: usize, cur: &mut Reference, acc: &mut Vec<Reference>) -> (r: ExcelResult<usize>)
    requires
        q <= s@.len(),
    ensures
        match (sized_spec(s@, q as int), sized_text(s@, q as int)) {
            (Some(q1), Some(n)) => match fields_spec(s@, q1, seq![2usize, 0]) {
                Some(q2) => r is Ok && r->Ok_0 == q2 && ref_views(final(acc)@) == commit(ref_views(old(acc)@), old(cur)@)
                    && final(cur)@ == (n, n, seq!['/']),
                None => r is Err,
            },
            _ => r is Err,
        },
        r is Ok ==> q <= r->Ok_0 <= s@.len(),
{
    let (name, q1) = sized_string(s, q)?;
    let layout: Vec<usize> = vec![2, 0];
    assert(layout@ =~= seq![2usize, 0]);
    let q2 = skip_fields(s, q1, layout)?;
    commit_current(cur, acc);
    proof {
        reveal_strlit("/");
    }
    *cur = Reference { name: name.clone(), description: name, path: "/".to_owned() };
    Ok(q2)
}

/// A REFERENCEREGISTERED record whose body starts at `q`.
fn registered_record(s: &[u8], q: usize, cur: &mut Reference) -> (r: ExcelResult<usize>)
    requires
        q <= s@.len(),
    ensures
        match fields_spec(s@, q as int, seq![4usize]) {
            None => r is Err,
            Some(q1) => match sized_spec(s@, q1) {
                None => r is Err,
                Some(q2) => match registered_spec(sized_bytes(s@, q1), old(cur)@) {
                    None => r is Err,
                    Some(c) => match skip_spec(s@, q2, 6) {
                        Some(q3) => r is Ok && r->Ok_0 == q3 && final(cur)@ == c,
                        None => r is Err,
                    },
                },
            },
        },
        r is Ok ==> q <= r->Ok_0 <= s@.len(),
{
    let q1 = skip(s, q, 4)?;
    assert(fields_spec(s@, q as int, seq![4usize]) == skip_spec(s@, q as int, 4)) by {
        reveal_with_fuel(fields_spec, 2);
        assert(seq![4usize].drop_first() =~= Seq::<usize>::empty());
    }
    let q2 = skip_sized(s, q1)?;
    apply_registered(&s[q1 + 4..q2], cur)?;
    skip(s, q2, 6)
}

/// A REFERENCEPROJECT record whose body starts at `q`.
fn project_record(s: &[u8], q: usize, cur: &mut Reference) -> (r: ExcelResult<usize>)
    requires
        q <= s@.len(),
    ensures
        match fields_spec(s@, q as int, seq![4usize]) {
            None => r is Err,
            Some(q1) => match sized_spec(s@, q1) {
                None => r is Err,
                Some(q2) => match project_path_spec(sized_bytes(s@, q1)) {
                    None => r is Err,
                    Some(path) => match fields_spec(s@, q2, seq![0usize, 6]) {
                        Some(q3) => r is Ok && r->Ok_0 == q3 && final(cur)@ == (old(cur)@.0, old(cur)@.1, path),
                        None => r is Err,
                    },
                },
            },
        },
        r is Ok ==> q <= r->Ok_0 <= s@.len(),
{
    let q1 = skip(s, q, 4)?;
    assert(fields_spec(s@, q as int, seq![4usize]) == skip_spec(s@, q as int, 4)) by {
        reveal_with_fuel(fields_spec, 2);
        assert(seq![4usize].drop_first() =~= Seq::<usize>::empty());
    }
    let q2 = skip_sized(s, q1)?;
    let path = project_path(&s[q1 + 4..q2])?;
    let layout: Vec<usize> = vec![0, 6];
    assert(layout@ =~= seq![0usize, 6]);
    let q3 = skip_fields(s, q2, layout)?;
    cur.path = path;
    Ok(q3)
}

/// Reads one record of the reference list.
fn read_reference_record(s: &[u8], p: usize, cur: &mut Reference, acc: &mut Vec<Reference>)
    -> (r: ExcelResult<(bool, usize)>)
    requires
        p <= s@.len(),
    ensures
        match ref_step(s@, p as int, old(cur)@, ref_views(old(acc)@)) {
            Some(t) => r is Ok && ref_views(final(acc)@) == t.0 && final(cur)@ == t.1
                && r->Ok_0.0 == t.2 && r->Ok_0.1 == t.3,
            None => r is Err,
        },
        r is Ok ==> p < r->Ok_0.1 <= s@.len(),
        p + 2 <= s@.len() && !ref_tag_known(le16_at(s@, p as int)) ==> r is Err && r->Err_0 is Malformed,
{
    let tag = read_u16(s, p)?;
    let q = p + 2;
    if tag == 0x0F {
        commit_current(cur, acc);
        Ok((true, q))
    } else if tag == 0x16 {
        let q2 = name_record(s, q, cur, acc)?;
        Ok((false, q2))
    } else if tag == 0x33 {
        let q1 = skip_sized(s, q)?;
        Ok((false, q1))
    } else if tag == 0x2F {
        let q1 = skip_control(s, q)?;
        Ok((false, q1))
    } else if tag == 0x0D {
        let q3 = registered_record(s, q, cur)?;
        Ok((false, q3))
    } else if tag == 0x0E {
        let q3 = project_record(s, q, cur)?;
        Ok((false, q3))
    } else {
        Err(malformed("invalid or unknown reference record"))
    }
}

/// Reads the reference list that starts at `p`, up to and including its end
/// record. Each REFERENCENAME record commits the reference before it, and the
/// end record commits the last one; a reference without a name is dropped.
pub fn read_references(s: &[u8], p: usize) -> (r: ExcelResult<(Vec<Reference>, usize)>)
    requires
        p <= s@.len(),
    ensures
        match refs_spec(s@, p as int, (Seq::empty(), Seq::empty(), seq!['/']), Seq::empty()) {
            Some(t) => r is Ok && ref_views(r->Ok_0.0@) == t.0 && r->Ok_0.1 == t.1,
            None => r is Err,
        },
        r is Ok ==> r->Ok_0.1 <= s@.len(),
        refs_unknown_tag(s@, p as int, (Seq::empty(), Seq::empty(), seq!['/']), Seq::empty()) ==> r is Err
            && r->Err_0 is Malformed,
{
    proof {
        reveal_strlit("");
        reveal_strlit("/");
    }
    let mut cur = Reference { name: "".to_owned(), description: "".to_owned(), path: "/".to_owned() };
    let mut acc: Vec<Reference> = Vec::new();
    assert(ref_views(acc@) =~= Seq::<RefView>::empty());
    assert(cur@.0 =~= Seq::<char>::empty());
    assert(cur@.1 =~= Seq::<char>::empty());
    assert(cur@.2 =~= seq!['/']);
    let ghost target = refs_spec(s@, p as int, cur@, ref_views(acc@));
    let ghost bad = refs_unknown_tag(s@, p as int, cur@, ref_views(acc@));
    let mut q = p;
    loop
        invariant
            q <= s@.len(),
            target == refs_spec(s@, q as int, cur@, ref_views(acc@)),
            target == refs_spec(s@, p as int, (Seq::empty(), Seq::empty(), seq!['/']), Seq::empty()),
            bad == refs_unknown_tag(s@, q as int, cur@, ref_views(acc@)),
            bad == refs_unknown_tag(s@, p as int, (Seq::empty(), Seq::empty(), seq!['/']), Seq::empty()),
        decreases s@.len() - q,
    {
        let (done, q1) = read_reference_record(s, q, &mut cur, &mut acc)?;
        if done {
            return Ok((acc, q1));
        }
        q = q1;
    }
}

pub open spec fn ref_names(v: Seq<RefView>) -> Seq<Seq<char>> {
    v.map_values(|r: RefView| r.0)
}

/// The non-empty names of `v`, in order.
pub open spec fn named_only(v: Seq<Seq<char>>) -> Seq<Seq<char>>
    decreases v.len(),
{
    if v.len() == 0 {
        v
    } else if v[0].len() > 0 {
        seq![v[0]] + named_only(v.drop_first())
    } else {
        named_only(v.drop_first())
    }
}

/// The names that the REFERENCENAME records of the reference list at `p`
/// carry, in input order.
pub open spec fn name_records(s: Seq<u8>, p: int, cur: RefView) -> Seq<Seq<char>>
    decreases s.len() - p,
{
    match ref_step(s, p, cur, Seq::empty()) {
        None => Seq::empty(),
        Some(t) => if t.2 || t.3 <= p || t.3 > s.len() {
            Seq::empty()
        } else if le16_at(s, p) == 0x16 {
            seq![t.1.0] + name_records(s, t.3, t.1)
        } else {
            name_records(s, t.3, t.1)
        },
    }
}

proof fn lemma_refs_names(s: Seq<u8>, p: int, cur: RefView, acc: Seq<RefView>)
    requires
        refs_spec(s, p, cur, acc) is Some,
    ensures
        ref_names((refs_spec(s, p, cur, acc)->0).0) == ref_names(acc) + named_only(seq![cur.0] + name_records(s, p, cur)),
    decreases s.len() - p,
{
    let t = ref_step(s, p, cur, acc)->0;
    let t0 = ref_step(s, p, cur, Seq::empty())->0;
    assert(t.1 == t0.1 && t.2 == t0.2 && t.3 == t0.3);
    let c = seq![cur.0];
    let own = if cur.0.len() > 0 { c } else { Seq::empty() };
    assert(ref_names(commit(acc, cur)) =~= ref_names(acc) + own);
    if t.2 {
        assert(named_only(seq![cur.0] + Seq::empty()) =~= own) by {
            assert((seq![cur.0] + Seq::<Seq<char>>::empty()).drop_first() =~= Seq::<Seq<char>>::empty());
            reveal_with_fuel(named_only, 2);
        }
        assert(seq![cur.0] + name_records(s, p, cur) =~= seq![cur.0] + Seq::empty());
        assert(ref_names(acc) + own =~= ref_names(acc) + named_only(seq![cur.0] + name_records(s, p, cur)));
    } else {
        lemma_refs_names(s, t.3, t.1, t.0);
        let rest = name_records(s, t.3, t.1);
        if le16_at(s, p) == 0x16 {
            let x = seq![t.1.0] + rest;
            assert((seq![cur.0] + x).drop_first() =~= x);
            assert(seq![cur.0] + name_records(s, p, cur) =~= seq![cur.0] + x);
            assert(ref_names(t.0) + named_only(seq![t.1.0] + rest) =~= ref_names(acc) + named_only(seq![cur.0] + x));
        } else {
            assert(t.1.0 == cur.0);
            assert(t.0 == acc);
        }
    }
}

/// Each reference that the list yields was started by a REFERENCENAME
/// record: the names of the references are those of the records, in input
/// order, a record with an empty name yielding none. So a list of N records
/// with non-empty names and its end record yields exactly N references.
pub proof fn lemma_reference_commit(s: Seq<u8>, p: int)
    requires
        refs_spec(s, p, (Seq::empty(), Seq::empty(), seq!['/']), Seq::empty()) is Some,
    ensures
        ref_names((refs_spec(s, p, (Seq::empty(), Seq::empty(), seq!['/']), Seq::empty())->0).0)
            == named_only(name_records(s, p, (Seq::empty(), Seq::empty(), seq!['/']))),
{
    let init: RefView = (Seq::empty(), Seq::empty(), seq!['/']);
    lemma_refs_names(s, p, init, Seq::empty());
    let x = name_records(s, p, init);
    assert((seq![init.0] + x).drop_first() =~= x);
    assert(ref_names(Seq::<RefView>::empty()) =~= Seq::<Seq<char>>::empty());
    assert(Seq::<Seq<char>>::empty() + named_only(x) =~= named_only(x));
}

/// A module as plain values: name, stream name, text offset.
pub type ModView = (Seq<char>, Seq<char>, nat);

/// A code module of the project: its name, the stream that holds it, and
/// where its compressed source starts in that stream.
#[derive(Debug)]
pub struct Module {
    pub name: String,
    pub stream_name: String,
    pub text_offset: usize,
}

impl View for Module {
    type V = ModView;

    open spec fn view(&self) -> ModView {
        (self.name@, self.stream_name@, self.text_offset as nat)
    }
}

pub open spec fn mod_views(v: Seq<Module>) -> Seq<ModView> {
    v.map_values(|m: Module| m@)
}

/// The module after its record at `p`, whether that record ends it, and the position after it.
pub open spec fn section_step(s: Seq<u8>, p: int, m: ModView) -> Option<(ModView, bool, int)> {
    if p < 0 || p + 2 > s.len() {
        None
    } else {
        let tag = le16_at(s, p);
        let q = p + 2;
        let fixed = if tag == 0x1E {
            8
        } else if tag == 0x2C {
            6
        } else {
            4
        };
        if tag == 0x47 {
            match sized_spec(s, q) {
                Some(q1) => Some((m, false, q1)),
                None => None,
            }
        } else if tag == 0x1A {
            match (sized_spec(s, q), sized_text(s, q)) {
                (Some(q1), Some(t)) => match fields_spec(s, q1, seq![2usize, 0]) {
                    Some(q2) => Some(((m.0, t, m.2), false, q2)),
                    None => None,
                },
                _ => None,
            }
        } else if tag == 0x1C {
            match fields_spec(s, q, seq![0usize, 2, 0]) {
                Some(q1) => Some((m, false, q1)),
                None => None,
            }
        } else if tag == 0x31 {
            if q + 8 > s.len() {
                None
            } else {
                Some(((m.0, m.1, le32_at(s, q + 4)), false, q + 8))
            }
        } else if tag == 0x1E || tag == 0x2C || tag == 0x21 || tag == 0x22 || tag == 0x25 || tag == 0x28
            || tag == 0x2B {
            match skip_spec(s, q, fixed) {
                Some(q1) => Some((m, tag == 0x2B, q1)),
                None => None,
            }
        } else {
            None
        }
    }
}

/// The records of a module from `p` up to and including its end record.
pub open spec fn sections_spec(s: Seq<u8>, p: int, m: ModView) -> Option<(ModView, int)>
    decreases s.len() - p,
{
    match section_step(s, p, m) {
        None => None,
        Some(t) => if t.1 {
            Some((t.0, t.2))
        } else if t.2 <= p || t.2 > s.len() {
            None
        } else {
            sections_spec(s, t.2, t.0)
        },
    }
}

/// One module at `p`: 2 bytes, its sized name, then its records.
pub open spec fn module_spec(s: Seq<u8>, p: int) -> Option<(ModView, int)> {
    match skip_spec(s, p, 2) {
        None => None,
        Some(q) => match (sized_spec(s, q), sized_text(s, q)) {
            (Some(q1), Some(name)) => sections_spec(s, q1, (name, Seq::empty(), 0)),
            _ => None,
        },
    }
}

/// `k` modules from `p`, appended to `acc`.
pub open spec fn module_list_spec(s: Seq<u8>, p: int, k: nat, acc: Seq<ModView>) -> Option<(Seq<ModView>, int)>
    decreases k,
{
    if k == 0 {
        Some((acc, p))
    } else {
        match module_spec(s, p) {
            None => None,
            Some(t) => module_list_spec(s, t.1, (k - 1) as nat, acc.push(t.0)),
        }
    }
}

/// The module block at `p`: 4 bytes, a 16-bit module count, 8 bytes, then the modules.
pub open spec fn modules_spec(s: Seq<u8>, p: int) -> Option<(Seq<ModView>, int)> {
    if p < 0 || p + 14 > s.len() {
        None
    } else {
        module_list_spec(s, p + 14, le16_at(s, p + 4), Seq::empty())
    }
}

/// The record tags that a module knows.
pub open spec fn section_tag_known(tag: nat) -> bool {
    tag == 0x47 || tag == 0x1A || tag == 0x1C || tag == 0x31 || tag == 0x1E || tag == 0x2C || tag == 0x21
        || tag == 0x22 || tag == 0x25 || tag == 0x28 || tag == 0x2B
}

/// The records of a module from `p` stop at a tag it does not know.
pub open spec fn sections_unknown_tag(s: Seq<u8>, p: int, m: ModView) -> bool
    decreases s.len() - p,
{
    match section_step(s, p, m) {
        None => 0 <= p && p + 2 <= s.len() && !section_tag_known(le16_at(s, p)),
        Some(t) => if t.1 || t.2 <= p || t.2 > s.len() {
            false
        } else {
            sections_unknown_tag(s, t.2, t.0)
        },
    }
}

/// The module at `p` stops at a record tag it does not know.
pub open spec fn module_unknown_tag(s: Seq<u8>, p: int) -> bool {
    match skip_spec(s, p, 2) {
        None => false,
        Some(q) => match (sized_spec(s, q), sized_text(s, q)) {
            (Some(q1), Some(name)) => sections_unknown_tag(s, q1, (name, Seq::empty(), 0)),
            _ => false,
        },
    }
}

/// Reading `k` modules from `p` stops at a record tag that a module does not know.
pub open spec fn module_list_unknown_tag(s: Seq<u8>, p: int, k: nat) -> bool
    decreases k,
{
    if k == 0 {
        false
    } else {
        match module_spec(s, p) {
            None => module_unknown_tag(s, p),
            Some(t) => module_list_unknown_tag(s, t.1, (k - 1) as nat),
        }
    }
}

/// Reading the module block at `p` stops at a record tag that a module does not know.
pub open spec fn modules_unknown_tag(s: Seq<u8>, p: int) -> bool {
    0 <= p && p + 14 <= s.len() && module_list_unknown_tag(s, p + 14, le16_at(s, p + 4))
}

/// Reads one record of a module.
fn read_section(s: &[u8], p: usize, m: &mut Module) -> (r: ExcelResult<(bool, usize)>)
    requires
        p <= s@.len(),
    ensures
        match section_step(s@, p as int, old(m)@) {
            Some(t) => r is Ok && final(m)@ == t.0 && r->Ok_0.0 == t.1 && r->Ok_0.1 == t.2,
            None => r is Err,
        },
        r is Ok ==> p < r->Ok_0.1 <= s@.len(),
        p + 2 <= s@.len() && !section_tag_known(le16_at(s@, p as int)) ==> r is Err && r->Err_0 is Malformed,
{
    let tag = read_u16(s, p)?;
    let q = p + 2;
    if tag == 0x47 {
        let q1 = skip_sized(s, q)?;
        Ok((false, q1))
    } else if tag == 0x1A {
        let (t, q1) = sized_string(s, q)?;
        let layout: Vec<usize> = vec![2, 0];
        assert(layout@ =~= seq![2usize, 0]);
        let q2 = skip_fields(s, q1, layout)?;
        m.stream_name = t;
        Ok((false, q2))
    } else if tag == 0x1C {
        let layout: Vec<usize> = vec![0, 2, 0];
        assert(layout@ =~= seq![0usize, 2, 0]);
        let q1 = skip_fields(s, q, layout)?;
        Ok((false, q1))
    } else if tag == 0x31 {
        if s.len() - q < 8 {
            return Err(eof());
        }
        m.text_offset = read_u32_at(s, q + 4) as usize;
        Ok((false, q + 8))
    } else if tag == 0x1E || tag == 0x2C || tag == 0x21 || tag == 0x22 || tag == 0x25 || tag == 0x28
        || tag == 0x2B {
        let fixed: usize = if tag == 0x1E {
            8
        } else if tag == 0x2C {
            6
        } else {
            4
        };
        let q1 = skip(s, q, fixed)?;
        Ok((tag == 0x2B, q1))
    } else {
        Err(malformed("unknown or invalid module section"))
    }
}

/// Reads one module: its name, then its records up to the end record.
fn read_module_record(s: &[u8], p: usize) -> (r: ExcelResult<(Module, usize)>)
    requires
        p <= s@.len(),
    ensures
        match module_spec(s@, p as int) {
            Some(t) => r is Ok && r->Ok_0.0@ == t.0 && r->Ok_0.1 == t.1,
            None => r is Err,
        },
        r is Ok ==> r->Ok_0.1 <= s@.len(),
        module_unknown_tag(s@, p as int) ==> r is Err && r->Err_0 is Malformed,
{
    let q = skip(s, p, 2)?;
    let (name, q1) = sized_string(s, q)?;
    proof {
        reveal_strlit("");
    }
    let mut m = Module { name, stream_name: "".to_owned(), text_offset: 0 };
    assert(m@.1 =~= Seq::<char>::empty());
    let ghost target = sections_spec(s@, q1 as int, m@);
    let ghost bad = sections_unknown_tag(s@, q1 as int, m@);
    let mut pos = q1;
    loop
        invariant
            pos <= s@.len(),
            target == sections_spec(s@, pos as int, m@),
            target == module_spec(s@, p as int),
            bad == sections_unknown_tag(s@, pos as int, m@),
            bad == module_unknown_tag(s@, p as int),
        decreases s@.len() - pos,
    {
        let (done, next) = read_section(s, pos, &mut m)?;
        if done {
            return Ok((m, next));
        }
        pos = next;
    }
}

/// Reads the module block that starts at `p`.
pub fn read_modules(s: &[u8], p: usize) -> (r: ExcelResult<Vec<Module>>)
    requires
        p <= s@.len(),
    ensures
        match modules_spec(s@, p as int) {
            Some(t) => r is Ok && mod_views(r->Ok_0@) == t.0,
            None => r is Err,
        },
        modules_unknown_tag(s@, p as int) ==> r is Err && r->Err_0 is Malformed,
{
    if s.len() - p < 14 {
        return Err(eof());
    }
    let count = read_u16_at(s, p + 4);
    let mut modules: Vec<Module> = Vec::new();
    let mut q = p + 14;
    let mut k: u16 = 0;
    assert(mod_views(modules@) =~= Seq::<ModView>::empty());
    let ghost target = modules_spec(s@, p as int);
    while k < count
        invariant
            k <= count,
            q <= s@.len(),
            count as nat == le16_at(s@, p + 4),
            p + 14 <= s@.len(),
            target == modules_spec(s@, p as int),
            target == module_list_spec(s@, q as int, (count - k) as nat, mod_views(modules@)),
            modules_unknown_tag(s@, p as int) == module_list_unknown_tag(s@, q as int, (count - k) as nat),
        decreases count - k,
    {
        let (m, q1) = read_module_record(s, q)?;
        proof {
            assert(mod_views(modules@.push(m)) =~= mod_views(modules@).push(m@));
        }
        modules.push(m);
        q = q1;
        k = k + 1;
    }
    Ok(modules)
}

} // verus!
