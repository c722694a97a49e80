//! The `PROJECT` stream: which code module has which kind of source file.
use vstd::prelude::*;
use vstd::string::StringSliceAdditionalSpecFns;
use vstd::utf8::{decode_utf8, encode_utf8, valid_utf8};
use crate::dirstream::utf8_text;
use crate::error::{bad_encoding, ExcelResult};

verus! {

pub const CLASS_EXTENSION: &'static str = "cls";
pub const MODULE_EXTENSION: &'static str = "bas";
pub const FORM_EXTENSION: &'static str = "frm";

/// The characters with the Unicode `White_Space` property.
pub open spec fn is_white_space(c: char) -> bool {
    let u = c as u32;
    (0x09 <= u <= 0x0D) || u == 0x20 || u == 0x85 || u == 0xA0 || u == 0x1680 || (0x2000 <= u <= 0x200A)
        || u == 0x2028 || u == 0x2029 || u == 0x202F || u == 0x205F || u == 0x3000
}

/// `s` without its leading white space.
pub open spec fn trim_start_of(s: Seq<char>) -> Seq<char>
    decreases s.len(),
{
    if s.len() > 0 && is_white_space(s[0]) {
        trim_start_of(s.drop_first())
    } else {
        s
    }
}

/// `s` without its trailing white space.
pub open spec fn trim_end_of(s: Seq<char>) -> Seq<char>
    decreases s.len(),
{
    if s.len() > 0 && is_white_space(s.last()) {
        trim_end_of(s.drop_last())
    } else {
        s
    }
}

/// `s` without its leading and trailing white space.
pub open spec fn trimmed_of(s: Seq<char>) -> Seq<char> {
    trim_end_of(trim_start_of(s))
}

/// Relies on `str::trim`: the text without its leading and trailing
/// characters of the Unicode `White_Space` property.
#[verifier::external_body]
fn trim_text(s: &str) -> (r: &str)
    ensures
        r@ == trimmed_of(s@),
{
    s.trim()
}

/// The index of the first byte equal to `c` at or after `i`, or the length.
pub open spec fn find_byte(b: Seq<u8>, c: u8, i: int) -> int
    decreases b.len() - i,
{
    if 0 <= i < b.len() && b[i] != c {
        find_byte(b, c, i + 1)
    } else {
        i
    }
}

/// The file extension that a `PROJECT` key (UTF-8 bytes) gives to its module.
pub open spec fn extension_of(key: Seq<u8>) -> Option<Seq<char>> {
    if key == "Document".spec_bytes() || key == "Class".spec_bytes() {
        Some(CLASS_EXTENSION@)
    } else if key == "Module".spec_bytes() {
        Some(MODULE_EXTENSION@)
    } else if key == "BaseClass".spec_bytes() {
        Some(FORM_EXTENSION@)
    } else {
        None
    }
}

/// The entry that a trimmed line `t` (UTF-8 bytes) gives: `Some(None)` for
/// a blank line, a section header, a line without `=` or with another key;
/// `None` when the module name is not valid UTF-8.
pub open spec fn line_entry(t: Seq<u8>) -> Option<Option<(Seq<char>, Seq<char>)>> {
    let eq = find_byte(t, 0x3D, 0);
    if t.len() == 0 || t[0] == 0x5B || eq >= t.len() {
        Some(None)
    } else {
        match extension_of(t.subrange(0, eq)) {
            None => Some(None),
            Some(ext) => {
                let name = t.subrange(eq + 1, t.len() as int);
                if valid_utf8(name) {
                    Some(Some((decode_utf8(name), ext)))
                } else {
                    None
                }
            },
        }
    }
}

proof fn lemma_ascii_bytes(s: &str, c: Seq<char>)
    requires
        s@ == c,
        vstd::utf8::is_ascii_chars(c),
    ensures
        s.spec_bytes() == c.map_values(|x: char| x as u8),
{
    vstd::utf8::is_ascii_chars_encode_utf8(c);
    assert(s.spec_bytes() =~= c.map_values(|x: char| x as u8));
}

/// The keys of the `PROJECT` lines that name code modules, as bytes.
proof fn lemma_key_bytes()
    ensures
        "Document".spec_bytes() == seq![0x44u8, 0x6F, 0x63, 0x75, 0x6D, 0x65, 0x6E, 0x74],
        "Class".spec_bytes() == seq![0x43u8, 0x6C, 0x61, 0x73, 0x73],
        "Module".spec_bytes() == seq![0x4Du8, 0x6F, 0x64, 0x75, 0x6C, 0x65],
        "BaseClass".spec_bytes() == seq![0x42u8, 0x61, 0x73, 0x65, 0x43, 0x6C, 0x61, 0x73, 0x73],
{
    reveal_strlit("Document");
    reveal_strlit("Class");
    reveal_strlit("Module");
    reveal_strlit("BaseClass");
    lemma_ascii_bytes("Document", "Document"@);
    lemma_ascii_bytes("Class", "Class"@);
    lemma_ascii_bytes("Module", "Module"@);
    lemma_ascii_bytes("BaseClass", "BaseClass"@);
    assert("Document".spec_bytes() =~= seq![0x44u8, 0x6F, 0x63, 0x75, 0x6D, 0x65, 0x6E, 0x74]);
    assert("Class".spec_bytes() =~= seq![0x43u8, 0x6C, 0x61, 0x73, 0x73]);
    assert("Module".spec_bytes() =~= seq![0x4Du8, 0x6F, 0x64, 0x75, 0x6C, 0x65]);
    assert("BaseClass".spec_bytes() =~= seq![0x42u8, 0x61, 0x73, 0x65, 0x43, 0x6C, 0x61, 0x73, 0x73]);
}

proof fn lemma_keyed_line(key: Seq<u8>, name: Seq<u8>)
    requires
        1 <= key.len() <= 9,
        key[0] != 0x5B,
        forall|i: int| 0 <= i < key.len() ==> #[trigger] key[i] != 0x3D,
    ensures
        ({
            let t = key + seq![0x3Du8] + name;
            &&& find_byte(t, 0x3D, 0) == key.len()
            &&& t.subrange(0, key.len() as int) == key
            &&& t.subrange(key.len() as int + 1, t.len() as int) == name
        }),
{
    let t = key + seq![0x3Du8] + name;
    assert forall|i: int| 0 <= i <= key.len() implies #[trigger] find_byte(t, 0x3D, i) == key.len() by {
        lemma_find_from(t, key.len() as int, i);
    }
    assert(t.subrange(0, key.len() as int) =~= key);
    assert(t.subrange(key.len() as int + 1, t.len() as int) =~= name);
}

proof fn lemma_find_from(t: Seq<u8>, k: int, i: int)
    requires
        0 <= i <= k < t.len(),
        t[k] == 0x3D,
        forall|j: int| 0 <= j < k ==> #[trigger] t[j] != 0x3D,
    ensures
        find_byte(t, 0x3D, i) == k,
    decreases k - i,
{
    if i < k {
        lemma_find_from(t, k, i + 1);
    }
}

/// A trimmed `PROJECT` line `Module=<name>` gives its module the extension
/// `bas`; `Document=` and `Class=` give `cls`, `BaseClass=` gives `frm`.
pub proof fn lemma_module_lines(name: Seq<u8>)
    requires
        valid_utf8(name),
    ensures
        line_entry("Module".spec_bytes() + seq![0x3Du8] + name) == Some(Some((decode_utf8(name), MODULE_EXTENSION@))),
        line_entry("Class".spec_bytes() + seq![0x3Du8] + name) == Some(Some((decode_utf8(name), CLASS_EXTENSION@))),
        line_entry("Document".spec_bytes() + seq![0x3Du8] + name) == Some(Some((decode_utf8(name), CLASS_EXTENSION@))),
        line_entry("BaseClass".spec_bytes() + seq![0x3Du8] + name) == Some(Some((decode_utf8(name), FORM_EXTENSION@))),
{
    lemma_key_bytes();
    let m = "Module".spec_bytes();
    let c = "Class".spec_bytes();
    let d = "Document".spec_bytes();
    let b = "BaseClass".spec_bytes();
    lemma_keyed_line(m, name);
    lemma_keyed_line(c, name);
    lemma_keyed_line(d, name);
    lemma_keyed_line(b, name);
    assert(m != d && m != c) by {
        assert(m.len() != d.len());
        assert(m[0] != c[0]);
    }
    assert(c != d) by {
        assert(c.len() != d.len());
    }
    assert(b != d && b != c && b != m) by {
        assert(b.len() != d.len() && b.len() != c.len() && b.len() != m.len());
    }
}

/// The index of the entry with key `k` at or after `i`, or the length.
pub open spec fn key_index(m: Seq<(Seq<char>, Seq<char>)>, k: Seq<char>, i: int) -> int
    decreases m.len() - i,
{
    if 0 <= i < m.len() && m[i].0 != k {
        key_index(m, k, i + 1)
    } else {
        i
    }
}

/// Sets the value of key `k`: in place when the key is there, else at the end.
pub open spec fn set_entry(m: Seq<(Seq<char>, Seq<char>)>, k: Seq<char>, v: Seq<char>) -> Seq<(Seq<char>, Seq<char>)> {
    let i = key_index(m, k, 0);
    if i < m.len() {
        m.update(i, (k, v))
    } else {
        m.push((k, v))
    }
}

/// The entries of the lines from `p` on, each line up to and including its
/// newline, applied to `acc`; `None` when a line is not valid UTF-8.
pub open spec fn project_spec(b: Seq<u8>, p: int, acc: Seq<(Seq<char>, Seq<char>)>) -> Option<Seq<(Seq<char>, Seq<char>)>>
    decreases b.len() - p,
{
    if p < 0 || p >= b.len() {
        Some(acc)
    } else {
        let e = find_byte(b, 0x0A, p);
        let end = if e < b.len() { e + 1 } else { b.len() as int };
        let line = b.subrange(p, end);
        if end <= p || !valid_utf8(line) {
            None
        } else {
            match line_entry(encode_utf8(trimmed_of(decode_utf8(line)))) {
                None => None,
                Some(None) => project_spec(b, end, acc),
                Some(Some(kv)) => project_spec(b, end, set_entry(acc, kv.0, kv.1)),
            }
        }
    }
}

pub open spec fn entry_views(v: Seq<(String, &'static str)>) -> Seq<(Seq<char>, Seq<char>)> {
    v.map_values(|e: (String, &'static str)| (e.0@, e.1@))
}

/// Whether two byte strings are equal.
pub fn bytes_are(a: &[u8], b: &[u8]) -> (r: bool)
    ensures
        r == (a@ == b@),
{
    if a.len() != b.len() {
        return false;
    }
    let mut i: usize = 0;
    while i < a.len()
        invariant
            i <= a@.len() == b@.len(),
            a@.subrange(0, i as int) == b@.subrange(0, i as int),
        decreases a@.len() - i,
    {
        if a[i] != b[i] {
            return false;
        }
        i = i + 1;
        assert(a@.subrange(0, i as int) =~= a@.subrange(0, i - 1).push(a@[i - 1]));
        assert(b@.subrange(0, i as int) =~= b@.subrange(0, i - 1).push(b@[i - 1]));
    }
    assert(a@ =~= a@.subrange(0, i as int));
    assert(b@ =~= b@.subrange(0, i as int));
    true
}

fn extension(key: &[u8]) -> (r: Option<&'static str>)
    ensures
        match extension_of(key@) {
            Some(e) => r is Some && r->0@ == e,
            None => r is None,
        },
{
    if bytes_are(key, "Document".as_bytes()) || bytes_are(key, "Class".as_bytes()) {
        Some(CLASS_EXTENSION)
    } else if bytes_are(key, "Module".as_bytes()) {
        Some(MODULE_EXTENSION)
    } else if bytes_are(key, "BaseClass".as_bytes()) {
        Some(FORM_EXTENSION)
    } else {
        None
    }
}

/// Reads the entry of one trimmed line.
fn read_line_entry(t: &[u8]) -> (r: ExcelResult<Option<(String, &'static str)>>)
    ensures
        match line_entry(t@) {
            None => r is Err && r->Err_0 is Encoding,
            Some(None) => r is Ok && r->Ok_0 is None,
            Some(Some(kv)) => r is Ok && r->Ok_0 is Some && (r->Ok_0->0).0@ == kv.0 && (r->Ok_0->0).1@ == kv.1,
        },
{
    if t.len() == 0 || t[0] == 0x5B {
        return Ok(None);
    }
    let mut i: usize = 0;
    while i < t.len() && t[i] != 0x3D
        invariant
            i <= t@.len(),
            find_byte(t@, 0x3D, 0) == find_byte(t@, 0x3D, i as int),
        decreases t@.len() - i,
    {
        i = i + 1;
    }
    if i >= t.len() {
        return Ok(None);
    }
    match extension(&t[0..i]) {
        None => Ok(None),
        Some(ext) => match utf8_text(&t[i + 1..t.len()]) {
            Some(name) => Ok(Some((name, ext))),
            None => Err(bad_encoding("module name is not valid UTF-8")),
        },
    }
}

/// Sets the extension of module `name` in `entries`.
fn set_module(entries: &mut Vec<(String, &'static str)>, name: String, ext: &'static str)
    ensures
        entry_views(final(entries)@) == set_entry(entry_views(old(entries)@), name@, ext@),
{
    let ghost m = entry_views(entries@);
    let mut i: usize = 0;
    while i < entries.len()
        invariant
            i <= entries@.len(),
            m == entry_views(entries@),
            entries@ == old(entries)@,
            key_index(m, name@, 0) == key_index(m, name@, i as int),
        decreases entries@.len() - i,
    {
        if entries[i].0 == name {
            entries.remove(i);
            entries.insert(i, (name, ext));
            assert(entry_views(entries@) =~= m.update(i as int, (name@, ext@)));
            return;
        }
        i = i + 1;
    }
    entries.push((name, ext));
    assert(entry_views(entries@) =~= m.push((name@, ext@)));
}

/// Reads the module entries of a `PROJECT` stream, line by line: each
/// `Document=`, `Class=`, `Module=` or `BaseClass=` line gives its module
/// the extension `cls`, `cls`, `bas` or `frm`; a later line for the same
/// module replaces the earlier one.
pub fn code_modules_of(b: &[u8]) -> (r: ExcelResult<Vec<(String, &'static str)>>)
    ensures
        match project_spec(b@, 0, Seq::empty()) {
            Some(m) => r is Ok && entry_views(r->Ok_0@) == m,
            None => r is Err,
        },
{
    let mut entries: Vec<(String, &'static str)> = Vec::new();
    assert(entry_views(entries@) =~= Seq::<(Seq<char>, Seq<char>)>::empty());
    let ghost target = project_spec(b@, 0, Seq::empty());
    let mut p: usize = 0;
    while p < b.len()
        invariant
            p <= b@.len(),
            target == project_spec(b@, 0, Seq::empty()),
            target == project_spec(b@, p as int, entry_views(entries@)),
        decreases b@.len() - p,
    {
        let mut e = p;
        while e < b.len() && b[e] != 0x0A
            invariant
                p <= e <= b@.len(),
                find_byte(b@, 0x0A, p as int) == find_byte(b@, 0x0A, e as int),
            decreases b@.len() - e,
        {
            e = e + 1;
        }
        let end = if e < b.len() { e + 1 } else { b.len() };
        let line = match utf8_text(&b[p..end]) {
            Some(l) => l,
            None => return Err(bad_encoding("PROJECT line is not valid UTF-8")),
        };
        let t = trim_text(line.as_str());
        match read_line_entry(t.as_bytes())? {
            None => {},
            Some((name, ext)) => set_module(&mut entries, name, ext),
        }
        p = end;
    }
    Ok(entries)
}

} // verus!
