//! The string-set that follows the formatted area of an SMBIOS structure.
use vstd::prelude::*;
use vstd::utf8::*;
use crate::text::string_from_utf8;

verus! {

/// Why a string of an SMBIOS structure could not be read.
#[derive(Debug, Clone, Copy, PartialEq, Eq, Structural)]
pub enum DmiStringError {
    /// The index is 0 (no string) or the string-set ends before it.
    Absent,
    /// A string up to and including the requested one is not UTF-8.
    InvalidUtf8,
    /// The table data ends inside the structure or its string-set.
    Truncated,
}

/// The byte at position `i`, if the data holds one.
pub open spec fn byte_at(d: Seq<u8>, i: int) -> Option<u8> {
    if 0 <= i < d.len() {
        Some(d[i])
    } else {
        None
    }
}

/// Position of the first NUL byte at or after `i`, or `None` when the data
/// ends first.
pub open spec fn nul_from(d: Seq<u8>, i: int) -> Option<int>
    decreases d.len() - i,
{
    if i < 0 || i >= d.len() {
        None
    } else if d[i] == 0 {
        Some(i)
    } else {
        nul_from(d, i + 1)
    }
}

/// Where the `index`-th string (counting from 1) of a string-set starting at
/// `base` begins: the strings before it are skipped, each of which must be
/// UTF-8. Walking stops early at the empty string that closes the set.
pub open spec fn string_start(d: Seq<u8>, base: int, index: int) -> Result<int, DmiStringError>
    decreases index,
{
    if base < 0 || base >= d.len() {
        Err(DmiStringError::Truncated)
    } else if index > 1 && d[base] != 0 {
        match nul_from(d, base) {
            None => Err(DmiStringError::Truncated),
            Some(e) => if !valid_utf8(d.subrange(base, e)) {
                Err(DmiStringError::InvalidUtf8)
            } else {
                string_start(d, e + 1, index - 1)
            },
        }
    } else {
        Ok(base)
    }
}

/// The `index`-th string of the structure whose header is at `header`: its
/// string-set starts right after the formatted area, whose length is the
/// header's second byte.
pub open spec fn dmi_string(d: Seq<u8>, header: int, index: u8) -> Result<
    Seq<char>,
    DmiStringError,
> {
    if index == 0 {
        Err(DmiStringError::Absent)
    } else {
        match byte_at(d, header + 1) {
            None => Err(DmiStringError::Truncated),
            Some(len) => match string_start(d, header + len, index as int) {
                Err(e) => Err(e),
                Ok(s) => if d[s] == 0 {
                    Err(DmiStringError::Absent)
                } else {
                    match nul_from(d, s) {
                        None => Err(DmiStringError::Truncated),
                        Some(e) => if valid_utf8(d.subrange(s, e)) {
                            Ok(decode_utf8(d.subrange(s, e)))
                        } else {
                            Err(DmiStringError::InvalidUtf8)
                        },
                    }
                },
            },
        }
    }
}

/// Finds the first NUL byte at or after `from`.
fn find_nul(d: &[u8], from: usize) -> (r: Option<usize>)
    ensures
        match r {
            Some(e) => nul_from(d@, from as int) == Some(e as int),
            None => nul_from(d@, from as int) is None,
        },
        r matches Some(e) ==> from <= e < d.len() && d@[e as int] == 0,
{
    let mut i = from;
    while i < d.len()
        invariant
            from <= i,
            nul_from(d@, i as int) == nul_from(d@, from as int),
        decreases d.len() - i,
    {
        if d[i] == 0 {
            return Some(i);
        }
        i = i + 1;
    }
    None
}

/// Copies `d[start..end]`.
fn copy_range(d: &[u8], start: usize, end: usize) -> (v: Vec<u8>)
    requires
        start <= end <= d.len(),
    ensures
        v@ == d@.subrange(start as int, end as int),
{
    let mut v: Vec<u8> = Vec::new();
    let mut i = start;
    while i < end
        invariant
            start <= i <= end <= d.len(),
            v@ == d@.subrange(start as int, i as int),
        decreases end - i,
    {
        v.push(d[i]);
        i = i + 1;
        assert(v@ =~= d@.subrange(start as int, i as int));
    }
    v
}

/// Reads the `index`-th string (counting from 1) of the SMBIOS structure
/// whose header starts at `header` in the table data `d`.
pub fn get_string_by_dmi(d: &[u8], header: usize, index: u8) -> (r: Result<String, DmiStringError>)
    ensures
        match r {
            Ok(s) => dmi_string(d@, header as int, index) == Ok::<Seq<char>, DmiStringError>(s@),
            Err(e) => dmi_string(d@, header as int, index) == Err::<Seq<char>, DmiStringError>(e),
        },
{
    if index == 0 {
        return Err(DmiStringError::Absent);
    }
    if header >= d.len() || d.len() - header < 2 {
        return Err(DmiStringError::Truncated);
    }
    let len = d[header + 1] as usize;
    if len >= d.len() - header {
        return Err(DmiStringError::Truncated);
    }
    let mut base = header + len;
    let mut idx = index;
    let ghost first = header + len;
    while idx > 1 && d[base] != 0
        invariant
            index != 0,
            header + 1 < d.len(),
            first == header + d@[header + 1],
            base < d.len(),
            string_start(d@, base as int, idx as int) == string_start(
                d@,
                first as int,
                index as int,
            ),
        decreases idx,
    {
        match find_nul(d, base) {
            None => {
                return Err(DmiStringError::Truncated);
            },
            Some(e) => {
                let bytes = copy_range(d, base, e);
                if string_from_utf8(bytes).is_none() {
                    return Err(DmiStringError::InvalidUtf8);
                }
                if e + 1 >= d.len() {
                    assert(string_start(d@, e + 1, idx - 1) == Err::<int, DmiStringError>(
                        DmiStringError::Truncated,
                    ));
                    return Err(DmiStringError::Truncated);
                }
                base = e + 1;
                idx = idx - 1;
            },
        }
    }
    if d[base] == 0 {
        return Err(DmiStringError::Absent);
    }
    match find_nul(d, base) {
        None => Err(DmiStringError::Truncated),
        Some(e) => {
            let bytes = copy_range(d, base, e);
            match string_from_utf8(bytes) {
                Some(s) => Ok(s),
                None => Err(DmiStringError::InvalidUtf8),
            }
        },
    }
}

} // verus!

verus! {

/// UTF-8 bytes none of which is 0 decode to characters none of which is NUL.
proof fn lemma_decode_without_nul(bytes: Seq<u8>)
    requires
        valid_utf8(bytes),
        forall|i: int| 0 <= i < bytes.len() ==> #[trigger] bytes[i] != 0,
    ensures
        forall|i: int|
            0 <= i < decode_utf8(bytes).len() ==> #[trigger] decode_utf8(bytes)[i] != '\0',
    decreases bytes.len(),
{
    if bytes.len() > 0 {
        let b0 = bytes[0];
        if is_leading_byte_width_1(b0) {
            assert((b0 & 0x7f) == b0) by (bit_vector)
                requires
                    b0 <= 0x7f,
            ;
        }
        let c = decode_first_scalar(bytes);
        assert(c != 0);
        assert(c <= 0x10ffff) by {
            if is_leading_byte_width_2(b0) {
                let b1 = bytes[1];
                assert(((b0 & 0x1F) as u32) << 6 | ((b1 & 0x3f) as u32) <= 0x7ff) by (bit_vector);
            } else if is_leading_byte_width_3(b0) {
                let b1 = bytes[1];
                let b2 = bytes[2];
                assert(((b0 & 0x0F) as u32) << 12 | ((b1 & 0x3f) as u32) << 6 | ((b2 & 0x3f) as u32)
                    <= 0xffff) by (bit_vector);
            }
        }
        let rest = pop_first_scalar(bytes);
        lemma_decode_without_nul(rest);
        let chars = decode_utf8(bytes);
        assert(chars =~= seq![c as char] + decode_utf8(rest));
        assert(chars[0] != '\0');
    }
}

/// A string read from a structure is never empty and holds no NUL
/// character.
pub proof fn lemma_dmi_string_nonempty_without_nul(d: Seq<u8>, header: int, index: u8)
    ensures
        dmi_string(d, header, index) matches Ok(s) ==> s.len() > 0 && forall|i: int|
            0 <= i < s.len() ==> #[trigger] s[i] != '\0',
{
    if let Ok(s) = dmi_string(d, header, index) {
        let len = d[header + 1];
        let start = string_start(d, header + len, index as int)->Ok_0;
        let end = nul_from(d, start)->Some_0;
        lemma_nul_from_first(d, start);
        let bytes = d.subrange(start, end);
        lemma_decode_without_nul(bytes);
        assert(bytes.len() > 0);
        assert(decode_utf8(bytes).len() > 0);
    }
}

/// `nul_from` finds the first NUL: every byte before it is nonzero.
proof fn lemma_nul_from_first(d: Seq<u8>, i: int)
    ensures
        nul_from(d, i) matches Some(e) ==> i <= e < d.len() && d[e] == 0 && forall|j: int|
            i <= j < e ==> #[trigger] d[j] != 0,
    decreases d.len() - i,
{
    if 0 <= i < d.len() && d[i] != 0 {
        lemma_nul_from_first(d, i + 1);
    }
}

} // verus!

verus! {

/// The larger of two positions.
pub open spec fn max_pos(a: int, b: int) -> int {
    if a >= b {
        a
    } else {
        b
    }
}

/// Two byte sequences have the same byte, or the same absence of one, at
/// every position below `n`.
pub open spec fn agree_below(d1: Seq<u8>, d2: Seq<u8>, n: int) -> bool {
    forall|i: int| 0 <= i < n ==> #[trigger] byte_at(d1, i) == byte_at(d2, i)
}

/// One past the last position that the search for a NUL from `i` looks at.
pub open spec fn nul_extent(d: Seq<u8>, i: int) -> int
    decreases d.len() - i,
{
    if i < 0 || i >= d.len() {
        i + 1
    } else if d[i] == 0 {
        i + 1
    } else {
        nul_extent(d, i + 1)
    }
}

/// One past the last position that `string_start` looks at.
pub open spec fn string_extent(d: Seq<u8>, base: int, index: int) -> int
    decreases index,
{
    if base < 0 || base >= d.len() {
        base + 1
    } else if index > 1 && d[base] != 0 {
        match nul_from(d, base) {
            None => nul_extent(d, base),
            Some(e) => if !valid_utf8(d.subrange(base, e)) {
                e + 1
            } else {
                string_extent(d, e + 1, index - 1)
            },
        }
    } else {
        base + 1
    }
}

/// One past the last position that `dmi_string` looks at.
pub open spec fn dmi_string_extent(d: Seq<u8>, header: int, index: u8) -> int {
    if index == 0 {
        0
    } else {
        match byte_at(d, header + 1) {
            None => header + 2,
            Some(len) => max_pos(
                header + 2,
                match string_start(d, header + len, index as int) {
                    Err(_) => string_extent(d, header + len, index as int),
                    Ok(s) => if d[s] == 0 {
                        s + 1
                    } else {
                        nul_extent(d, s)
                    },
                },
            ),
        }
    }
}

/// Agreement at one position tells whether both sequences hold a byte
/// there, and that the bytes are equal.
pub proof fn lemma_agree_at(d1: Seq<u8>, d2: Seq<u8>, n: int, i: int)
    requires
        agree_below(d1, d2, n),
        0 <= i < n,
    ensures
        (i < d1.len()) == (i < d2.len()),
        i < d1.len() ==> d1[i] == d2[i],
{
    assert(byte_at(d1, i) == byte_at(d2, i));
}

/// Sequences agreeing on `[a, b)`, both long enough, have equal slices there.
pub proof fn lemma_agree_subrange(d1: Seq<u8>, d2: Seq<u8>, n: int, a: int, b: int)
    requires
        agree_below(d1, d2, n),
        0 <= a <= b <= n,
        b <= d1.len(),
    ensures
        d1.subrange(a, b) == d2.subrange(a, b),
{
    if b > 0 {
        lemma_agree_at(d1, d2, n, b - 1);
    }
    assert forall|k: int| 0 <= k < b - a implies #[trigger] d1.subrange(a, b)[k] == d2.subrange(
        a,
        b,
    )[k] by {
        lemma_agree_at(d1, d2, n, a + k);
    }
    assert(d1.subrange(a, b) =~= d2.subrange(a, b));
}

/// The search for a NUL looks at least at its start, and stops right after
/// the NUL it finds.
pub proof fn lemma_nul_extent(d: Seq<u8>, i: int)
    requires
        0 <= i,
    ensures
        nul_extent(d, i) > i,
        nul_from(d, i) matches Some(e) ==> nul_extent(d, i) == e + 1,
    decreases d.len() - i,
{
    if i < d.len() && d[i] != 0 {
        lemma_nul_extent(d, i + 1);
    }
}

/// `string_start` looks at least at `base`, and stops right at the start
/// it finds.
pub proof fn lemma_string_extent(d: Seq<u8>, base: int, index: int)
    requires
        0 <= base,
    ensures
        string_extent(d, base, index) > base,
        string_start(d, base, index) matches Ok(s) ==> string_extent(d, base, index) == s + 1
            && base <= s < d.len(),
        base < d.len() && index > 1 && d[base] != 0 ==> nul_extent(d, base) <= string_extent(
            d,
            base,
            index,
        ),
    decreases index,
{
    if base < d.len() && index > 1 && d[base] != 0 {
        lemma_nul_extent(d, base);
        if let Some(e) = nul_from(d, base) {
            lemma_nul_from_first(d, base);
            if valid_utf8(d.subrange(base, e)) {
                lemma_string_extent(d, e + 1, index - 1);
            }
        }
    }
}

/// The search for a NUL only depends on the bytes it looks at.
pub proof fn lemma_nul_from_agree(d1: Seq<u8>, d2: Seq<u8>, n: int, i: int)
    requires
        0 <= i,
        nul_extent(d1, i) <= n,
        agree_below(d1, d2, n),
    ensures
        nul_from(d1, i) == nul_from(d2, i),
        nul_extent(d1, i) > i,
        nul_from(d1, i) matches Some(e) ==> nul_extent(d1, i) == e + 1,
    decreases d1.len() - i,
{
    lemma_nul_extent(d1, i);
    lemma_agree_at(d1, d2, n, i);
    if i < d1.len() && d1[i] != 0 {
        lemma_nul_from_agree(d1, d2, n, i + 1);
    }
}

/// Where a string starts only depends on the bytes that are looked at.
pub proof fn lemma_string_start_agree(d1: Seq<u8>, d2: Seq<u8>, n: int, base: int, index: int)
    requires
        0 <= base,
        string_extent(d1, base, index) <= n,
        agree_below(d1, d2, n),
    ensures
        string_start(d1, base, index) == string_start(d2, base, index),
        string_extent(d1, base, index) > base,
        string_start(d1, base, index) matches Ok(s) ==> string_extent(d1, base, index) == s + 1,
    decreases index,
{
    lemma_string_extent(d1, base, index);
    lemma_agree_at(d1, d2, n, base);
    if base < d1.len() && index > 1 && d1[base] != 0 {
        lemma_nul_from_agree(d1, d2, n, base);
        match nul_from(d1, base) {
            None => {},
            Some(e) => {
                lemma_nul_from_first(d1, base);
                lemma_nul_extent(d1, base);
                lemma_agree_subrange(d1, d2, n, base, e);
                if valid_utf8(d1.subrange(base, e)) {
                    lemma_string_start_agree(d1, d2, n, e + 1, index - 1);
                }
            },
        }
    }
}

/// A string of a structure only depends on the bytes that are looked at.
pub proof fn lemma_dmi_string_agree(d1: Seq<u8>, d2: Seq<u8>, n: int, header: int, index: u8)
    requires
        0 <= header,
        dmi_string_extent(d1, header, index) <= n,
        agree_below(d1, d2, n),
    ensures
        dmi_string(d1, header, index) == dmi_string(d2, header, index),
{
    if index != 0 {
        lemma_agree_at(d1, d2, n, header + 1);
        if header + 1 < d1.len() {
            let len = d1[header + 1];
            lemma_string_extent(d1, header + len, index as int);
            if let Ok(s) = string_start(d1, header + len, index as int) {
                if d1[s] != 0 {
                    lemma_nul_extent(d1, s);
                }
            }
            lemma_string_start_agree(d1, d2, n, header + len, index as int);
            if let Ok(s) = string_start(d1, header + len, index as int) {
                lemma_agree_at(d1, d2, n, s);
                if d1[s] != 0 {
                    lemma_nul_from_agree(d1, d2, n, s);
                    if let Some(e) = nul_from(d1, s) {
                        lemma_nul_from_first(d1, s);
                        lemma_agree_subrange(d1, d2, n, s, e);
                    }
                }
            }
        }
    }
}

} // verus!

verus! {

/// The search for a NUL from `s` stops at the latest at a NUL at `e`.
pub proof fn lemma_nul_extent_before(d: Seq<u8>, s: int, e: int)
    requires
        0 <= s <= e < d.len(),
        d[e] == 0,
    ensures
        nul_extent(d, s) <= e + 1,
        nul_from(d, s) is Some,
        nul_from(d, s)->Some_0 <= e,
    decreases e - s,
{
    if d[s] != 0 {
        lemma_nul_extent_before(d, s + 1, e);
    }
}

/// When a string-set ends with the two NULs at `e` and `e + 1`, walking its
/// strings from any position up to `e + 1` looks at nothing past them.
pub proof fn lemma_string_extent_within_set(d: Seq<u8>, b: int, index: int, e: int)
    requires
        0 <= b <= e + 1,
        e + 1 < d.len(),
        d[e] == 0,
        d[e + 1] == 0,
    ensures
        string_extent(d, b, index) <= e + 2,
        string_start(d, b, index) matches Ok(s) ==> s <= e + 1,
    decreases index,
{
    if index > 1 && d[b] != 0 {
        lemma_nul_extent_before(d, b, e);
        lemma_nul_from_first(d, b);
        let n = nul_from(d, b)->Some_0;
        if valid_utf8(d.subrange(b, n)) {
            lemma_string_extent_within_set(d, n + 1, index - 1, e);
        }
    }
}

/// Reading a string of the structure at `header`, whose string-set starts
/// by `e + 1` and ends with the two NULs at `e` and `e + 1`, looks at
/// nothing past them.
pub proof fn lemma_dmi_string_extent_within_set(d: Seq<u8>, header: int, index: u8, e: int)
    requires
        0 <= header,
        header + 1 < d.len(),
        header + d[header + 1] <= e + 1,
        header + 2 <= e + 2,
        e + 1 < d.len(),
        d[e] == 0,
        d[e + 1] == 0,
    ensures
        dmi_string_extent(d, header, index) <= e + 2,
{
    let base = header + d[header + 1];
    lemma_string_extent_within_set(d, base, index as int, e);
    lemma_string_extent(d, base, index as int);
    if let Ok(s) = string_start(d, base, index as int) {
        if d[s] != 0 {
            lemma_nul_extent_before(d, s, e);
        }
    }
}

} // verus!

verus! {

/// The strings `starts[k]..nuls[k]` are the first `starts.len()` strings of
/// a string-set that begins at `base`: each is non-empty, ends at the first
/// NUL after its start, is UTF-8, and the next one starts right after that
/// NUL.
pub open spec fn leading_strings(d: Seq<u8>, base: int, starts: Seq<int>, nuls: Seq<int>) -> bool {
    &&& starts.len() >= 1
    &&& nuls.len() == starts.len()
    &&& starts[0] == base
    &&& forall|k: int|
        0 <= k < starts.len() ==> {
            &&& 0 <= #[trigger] starts[k] < nuls[k] < d.len()
            &&& d[nuls[k]] == 0
            &&& valid_utf8(d.subrange(starts[k], nuls[k]))
        }
    &&& forall|k: int, j: int|
        #![trigger starts[k], d[j]]
        0 <= k < starts.len() && starts[k] <= j < nuls[k] ==> d[j] != 0
    &&& forall|k: int| 0 <= k < starts.len() - 1 ==> #[trigger] starts[k + 1] == nuls[k] + 1
}

/// A search for a NUL finds the first one.
proof fn lemma_nul_from_is_first(d: Seq<u8>, s: int, e: int)
    requires
        0 <= s <= e < d.len(),
        d[e] == 0,
        forall|j: int| s <= j < e ==> #[trigger] d[j] != 0,
    ensures
        nul_from(d, s) == Some(e),
    decreases e - s,
{
    if s < e {
        lemma_nul_from_is_first(d, s + 1, e);
    }
}

proof fn lemma_string_start_reaches(d: Seq<u8>, starts: Seq<int>, nuls: Seq<int>, k: int)
    requires
        leading_strings(d, starts[0], starts, nuls),
        0 <= k < starts.len(),
    ensures
        string_start(d, starts[k], starts.len() - k) == Ok::<int, DmiStringError>(
            starts[starts.len() - 1],
        ),
    decreases starts.len() - k,
{
    let s = starts[k];
    let e = nuls[k];
    assert(0 <= s < e < d.len());
    assert(d[s] != 0);
    if starts.len() - k > 1 {
        assert forall|j: int| s <= j < e implies #[trigger] d[j] != 0 by {
            assert(starts[k] == s);
        }
        lemma_nul_from_is_first(d, s, e);
        assert(starts[k + 1] == nuls[k] + 1);
        lemma_string_start_reaches(d, starts, nuls, k + 1);
    }
}

/// Reading the `n`-th string of a structure gives exactly the UTF-8
/// decoding of that whole string: the bytes from its start up to the NUL
/// that ends it, whatever its length. The string-set starts right after
/// the formatted area, whose length is the header's second byte.
pub proof fn lemma_dmi_string_reads_whole_string(
    d: Seq<u8>,
    header: int,
    index: u8,
    starts: Seq<int>,
    nuls: Seq<int>,
)
    requires
        0 <= header,
        header + 1 < d.len(),
        leading_strings(d, header + d[header + 1], starts, nuls),
        index == starts.len(),
    ensures
        dmi_string(d, header, index) == Ok::<Seq<char>, DmiStringError>(
            decode_utf8(d.subrange(starts[index - 1], nuls[index - 1])),
        ),
{
    let last = index - 1;
    lemma_string_start_reaches(d, starts, nuls, 0);
    let s = starts[last];
    let e = nuls[last];
    assert(0 <= s < e < d.len());
    assert(d[s] != 0);
    assert forall|j: int| s <= j < e implies #[trigger] d[j] != 0 by {
        assert(starts[last] == s);
    }
    lemma_nul_from_is_first(d, s, e);
}

} // verus!
