//! The 32-byte directory entry: short names, long-name fragments, and the
//! fields of an entry.

use vstd::prelude::*;
use crate::error::DirError;
use crate::tool::{le_u16_at, le_u32_at};

verus! {

/// First byte of the entry that ends a directory.
pub const END_MARK: u8 = 0x00;

/// First byte of a deleted entry.
pub const DELETED_MARK: u8 = 0xE5;

/// Attribute byte of an entry that carries a piece of a long name.
pub const ATTR_LONG_NAME: u8 = 0x0F;

/// Attribute bit of a directory.
pub const ATTR_DIRECTORY: u8 = 0x10;

/// Attribute bit of a file that has changed since its last backup.
pub const ATTR_ARCHIVE: u8 = 0x20;

/// Whether `b` is one of the nine characters `\ / : * ? " < > |`.
pub open spec fn forbidden(b: u8) -> bool {
    b == 0x5C || b == 0x2F || b == 0x3A || b == 0x2A || b == 0x3F || b == 0x22 || b == 0x3C || b
        == 0x3E || b == 0x7C
}

/// Whether some byte of `name` is a forbidden character.
pub open spec fn has_forbidden(name: Seq<u8>) -> bool {
    exists|i: int| 0 <= i < name.len() && forbidden(#[trigger] name[i])
}

/// Whether `name` is looked up among the short names: it is ASCII, without a
/// space, and at most eight bytes long.
pub open spec fn is_short(name: Seq<u8>) -> bool {
    name.len() <= 8 && forall|i: int|
        0 <= i < name.len() ==> (#[trigger] name[i]) < 0x80 && name[i] != 0x20
}

/// Whether `name` can be stored as a short name.
pub open spec fn short_name_valid(name: Seq<u8>) -> bool {
    is_short(name) && !has_forbidden(name)
}

/// `b` with a lower-case ASCII letter made upper case.
pub open spec fn upper(b: u8) -> u8 {
    if 0x61 <= b <= 0x7A {
        (b - 0x20) as u8
    } else {
        b
    }
}

/// `name` with its lower-case ASCII letters made upper case.
pub open spec fn upper_seq(name: Seq<u8>) -> Seq<u8> {
    Seq::new(name.len(), |i: int| upper(name[i]))
}

/// Whether `a` and `b` differ at most in the case of ASCII letters.
pub open spec fn eq_ignore_case(a: Seq<u8>, b: Seq<u8>) -> bool {
    a.len() == b.len() && forall|i: int| 0 <= i < a.len() ==> upper(a[i]) == upper(b[i])
}

/// The eleven name bytes of a short entry for `name`: upper case, padded with
/// spaces on the right.
pub open spec fn spec_encode_short_name(name: Seq<u8>) -> Seq<u8> {
    Seq::new(
        11,
        |i: int|
            if i < name.len() {
                upper(name[i])
            } else {
                0x20u8
            },
    )
}

/// Index of the first space among `e[i] .. e[end - 1]`, or `end`.
pub open spec fn run_end(e: Seq<u8>, i: int, end: int) -> int
    decreases end - i,
{
    if i >= end || e[i] == 0x20 {
        i
    } else {
        run_end(e, i + 1, end)
    }
}

/// `b` alone, unless it is a space.
pub open spec fn unless_space(b: u8) -> Seq<u8> {
    if b != 0x20 {
        seq![b]
    } else {
        Seq::empty()
    }
}

/// The extension of a short entry: bytes 8 to 10 without their spaces.
pub open spec fn spec_extension(e: Seq<u8>) -> Seq<u8> {
    unless_space(e[8]) + unless_space(e[9]) + unless_space(e[10])
}

/// The name that a short entry shows: bytes 0 to 7 up to the first space,
/// then, where the extension is not empty, a dot and the extension.
pub open spec fn spec_short_name(e: Seq<u8>) -> Seq<u8> {
    let base = e.subrange(0, run_end(e, 0, 8));
    if spec_extension(e).len() > 0 {
        base + seq![0x2Eu8] + spec_extension(e)
    } else {
        base
    }
}

/// The bytes `e[start] .. e[start + n - 1]` up to the first space, filled up
/// with zeros to `n` bytes.
pub open spec fn name_part(e: Seq<u8>, start: int, n: int) -> Seq<u8> {
    Seq::new(
        n as nat,
        |i: int|
            if start + i < run_end(e, start, start + n) {
                e[start + i]
            } else {
                0u8
            },
    )
}

/// The UTF-8 form of one UCS-2 code unit.
pub open spec fn utf8_of_unit(u: u16) -> Seq<u8> {
    if u <= 0x7F {
        seq![u as u8]
    } else if u <= 0x7FF {
        seq![(0xC0 + u / 64) as u8, (0x80 + u % 64) as u8]
    } else {
        seq![(0xE0 + u / 4096) as u8, (0x80 + u / 64 % 64) as u8, (0x80 + u % 64) as u8]
    }
}

/// The UTF-8 form of the code units before the first zero unit.
pub open spec fn utf8_until_zero(units: Seq<u16>) -> Seq<u8>
    decreases units.len(),
{
    if units.len() == 0 || units[0] == 0 {
        Seq::empty()
    } else {
        utf8_of_unit(units[0]) + utf8_until_zero(units.drop_first())
    }
}

/// The `n` code units stored from byte `start` on; none where the first byte
/// is `0xFF`, which marks the range as unused.
pub open spec fn unit_range(e: Seq<u8>, start: int, n: nat) -> Seq<u16> {
    if e[start] == 0xFF {
        Seq::empty()
    } else {
        Seq::new(n, |k: int| le_u16_at(e, start + 2 * k))
    }
}

/// The code units of a long-name entry, in the order of the name.
pub open spec fn spec_units(e: Seq<u8>) -> Seq<u16> {
    unit_range(e, 0x01, 5) + unit_range(e, 0x0E, 6) + unit_range(e, 0x1C, 2)
}

/// The piece of a long name that an entry carries, as UTF-8.
pub open spec fn spec_long_name(e: Seq<u8>) -> Seq<u8> {
    utf8_until_zero(spec_units(e))
}

/// The first cluster that an entry names.
pub open spec fn spec_cluster(e: Seq<u8>) -> u32 {
    (le_u16_at(e, 0x14) * 65536 + le_u16_at(e, 0x1A)) as u32
}

/// The length in bytes that an entry records.
pub open spec fn spec_length(e: Seq<u8>) -> u32 {
    le_u32_at(e, 0x1C)
}

/// The short entry of a new, empty object: its eleven name bytes, its
/// attribute, the creation mark `0x18`, its first cluster; every other byte is
/// zero.
pub open spec fn spec_new_entry(name: Seq<u8>, attribute: u8, cluster: u32) -> Seq<u8> {
    Seq::new(
        32,
        |i: int|
            if i < 11 {
                name[i]
            } else if i == 0x0B {
                attribute
            } else if i == 0x0C {
                0x18u8
            } else if i == 0x14 {
                (cluster / 65536 % 256) as u8
            } else if i == 0x15 {
                (cluster / 16777216) as u8
            } else if i == 0x1A {
                (cluster % 256) as u8
            } else if i == 0x1B {
                (cluster / 256 % 256) as u8
            } else {
                0u8
            },
    )
}

/// A name that is stored and shown again comes back in upper case.
pub proof fn lemma_short_name_round_trip(name: Seq<u8>, e: Seq<u8>)
    requires
        short_name_valid(name),
        e.len() >= 11,
        e.subrange(0, 11) == spec_encode_short_name(name),
    ensures
        spec_short_name(e) == upper_seq(name),
{
    let enc = spec_encode_short_name(name);
    assert forall|i: int| 0 <= i < 11 implies e[i] == enc[i] by {
        assert(e.subrange(0, 11)[i] == e[i]);
    }
    assert forall|i: int| 0 <= i < name.len() implies e[i] != 0x20 by {
        assert(name[i] != 0x20);
    }
    lemma_run_end(e, 0, name.len() as int, 8);
    assert(spec_extension(e) =~= Seq::<u8>::empty());
    assert(e.subrange(0, name.len() as int) =~= upper_seq(name));
}

/// Where bytes `i .. n` hold no space and byte `n` is a space or `n` is
/// `end`, the run from `i` ends at `n`.
pub proof fn lemma_run_end(e: Seq<u8>, i: int, n: int, end: int)
    requires
        0 <= i <= n <= end,
        forall|k: int| i <= k < n ==> e[k] != 0x20,
        n < end ==> e[n] == 0x20,
    ensures
        run_end(e, i, end) == n,
    decreases n - i,
{
    if i < n {
        lemma_run_end(e, i + 1, n, end);
    }
}

/// A new entry carries the name, the cluster and the attribute it was made
/// for, and has length zero.
pub proof fn lemma_new_entry_fields(name: Seq<u8>, attribute: u8, cluster: u32)
    requires
        name.len() == 11,
    ensures
        spec_new_entry(name, attribute, cluster).len() == 32,
        spec_new_entry(name, attribute, cluster).subrange(0, 11) == name,
        spec_cluster(spec_new_entry(name, attribute, cluster)) == cluster,
        spec_length(spec_new_entry(name, attribute, cluster)) == 0,
        spec_new_entry(name, attribute, cluster)[0x0B] == attribute,
{
    let e = spec_new_entry(name, attribute, cluster);
    assert(e.subrange(0, 11) =~= name);
    let c = cluster as int;
    assert(c / 65536 % 256 + 256 * (c / 16777216) == c / 65536);
    assert(c % 256 + 256 * (c / 256 % 256) == c % 65536);
}

/// Whether some byte of `name` is one of `\ / : * ? " < > |`.
pub fn has_illegal_char(name: &[u8]) -> (r: bool)
    ensures
        r == has_forbidden(name@),
{
    let mut i: usize = 0;
    while i < name.len()
        invariant
            i <= name@.len(),
            forall|k: int| 0 <= k < i ==> !forbidden(#[trigger] name@[k]),
        decreases name@.len() - i,
    {
        let b: u8 = name[i];
        if b == 0x5C || b == 0x2F || b == 0x3A || b == 0x2A || b == 0x3F || b == 0x22 || b == 0x3C
            || b == 0x3E || b == 0x7C {
            return true;
        }
        i += 1;
    }
    false
}

/// Whether `name` is looked up among the short names.
pub fn is_short_name(name: &[u8]) -> (r: bool)
    ensures
        r == is_short(name@),
{
    if name.len() > 8 {
        return false;
    }
    let mut i: usize = 0;
    while i < name.len()
        invariant
            i <= name@.len(),
            forall|k: int| 0 <= k < i ==> (#[trigger] name@[k]) < 0x80 && name@[k] != 0x20,
        decreases name@.len() - i,
    {
        if name[i] >= 0x80 || name[i] == 0x20 {
            return false;
        }
        i += 1;
    }
    true
}

/// `b` with a lower-case ASCII letter made upper case.
pub fn to_upper(b: u8) -> (r: u8)
    ensures
        r == upper(b),
{
    if 0x61 <= b && b <= 0x7A {
        b - 0x20
    } else {
        b
    }
}

/// Whether `a` and `b` differ at most in the case of ASCII letters.
pub fn eq_ignore_ascii_case(a: &[u8], b: &[u8]) -> (r: bool)
    ensures
        r == eq_ignore_case(a@, b@),
{
    if a.len() != b.len() {
        return false;
    }
    let mut i: usize = 0;
    while i < a.len()
        invariant
            i <= a@.len(),
            a@.len() == b@.len(),
            forall|k: int| 0 <= k < i ==> upper(a@[k]) == upper(b@[k]),
        decreases a@.len() - i,
    {
        if to_upper(a[i]) != to_upper(b[i]) {
            return false;
        }
        i += 1;
    }
    true
}

/// The name bytes of a short entry for `name`, or `IllegalName` where `name`
/// cannot be stored as a short name.
pub fn encode_short_name(name: &[u8]) -> (r: Result<[u8; 11], DirError>)
    ensures
        match r {
            Ok(bytes) => short_name_valid(name@) && bytes@ == spec_encode_short_name(name@),
            Err(DirError::IllegalName) => !short_name_valid(name@),
            Err(_) => false,
        },
{
    if has_illegal_char(name) || !is_short_name(name) {
        return Err(DirError::IllegalName);
    }
    let mut bytes: [u8; 11] = [0x20u8; 11];
    let mut i: usize = 0;
    while i < name.len()
        invariant
            i <= name@.len() <= 8,
            forall|k: int| 0 <= k < i ==> bytes@[k] == upper(name@[k]),
            forall|k: int| i <= k < 11 ==> bytes@[k] == 0x20,
        decreases name@.len() - i,
    {
        bytes[i] = to_upper(name[i]);
        i += 1;
    }
    assert(bytes@ =~= spec_encode_short_name(name@));
    Ok(bytes)
}

/// The name that a short entry shows, and its length.
pub fn get_short_name(buf: &[u8]) -> (r: ([u8; 13], usize))
    requires
        buf@.len() >= 11,
    ensures
        r.1 <= 12,
        r.0@.subrange(0, r.1 as int) == spec_short_name(buf@),
{
    let mut out: [u8; 13] = [0u8; 13];
    let mut len: usize = 0;
    while len < 8 && buf[len] != 0x20
        invariant
            len <= 8,
            buf@.len() >= 11,
            run_end(buf@, 0, 8) == run_end(buf@, len as int, 8),
            forall|k: int| 0 <= k < len ==> out@[k] == buf@[k],
        decreases 8 - len,
    {
        out[len] = buf[len];
        len += 1;
    }
    let ghost base = buf@.subrange(0, len as int);
    assert(out@.subrange(0, len as int) =~= base);
    if buf[8] != 0x20 || buf[9] != 0x20 || buf[10] != 0x20 {
        out[len] = 0x2E;
        len += 1;
        let ghost mut text = base + seq![0x2Eu8];
        assert(out@.subrange(0, len as int) =~= text);
        if buf[8] != 0x20 {
            out[len] = buf[8];
            len += 1;
        }
        proof {
            text = text + unless_space(buf@[8]);
            assert(out@.subrange(0, len as int) =~= text);
        }
        if buf[9] != 0x20 {
            out[len] = buf[9];
            len += 1;
        }
        proof {
            text = text + unless_space(buf@[9]);
            assert(out@.subrange(0, len as int) =~= text);
        }
        if buf[10] != 0x20 {
            out[len] = buf[10];
            len += 1;
        }
        proof {
            text = text + unless_space(buf@[10]);
            assert(out@.subrange(0, len as int) =~= text);
            assert(text =~= base + seq![0x2Eu8] + spec_extension(buf@));
        }
    } else {
        assert(spec_extension(buf@) =~= Seq::<u8>::empty());
    }
    (out, len)
}

/// Appends the code units of the range of `n` units at byte `start` to the
/// `count` units that `units` holds.
fn gather(buf: &[u8], start: usize, n: usize, units: &mut [u16; 13], count: usize) -> (r: usize)
    requires
        0 < n,
        start + 2 * n <= buf@.len(),
        count + n <= 13,
    ensures
        r <= count + n,
        final(units)@.subrange(0, r as int) == old(units)@.subrange(0, count as int) + unit_range(
            buf@,
            start as int,
            n as nat,
        ),
{
    if buf[start] == 0xFF {
        assert(units@.subrange(0, count as int) + Seq::<u16>::empty() =~= units@.subrange(
            0,
            count as int,
        ));
        return count;
    }
    let mut k: usize = 0;
    while k < n
        invariant
            k <= n,
            start + 2 * n <= buf.len(),
            count + n <= 13,
            forall|i: int| 0 <= i < count ==> units@[i] == old(units)@[i],
            forall|i: int|
                count <= i < count + k ==> #[trigger] units@[i] == le_u16_at(
                    buf@,
                    start + 2 * (i - count),
                ),
        decreases n - k,
    {
        let low: u16 = buf[start + 2 * k] as u16;
        let high: u16 = buf[start + 2 * k + 1] as u16;
        units[count + k] = low + 256 * high;
        k += 1;
    }
    assert(units@.subrange(0, count + n) =~= old(units)@.subrange(0, count as int) + unit_range(
        buf@,
        start as int,
        n as nat,
    ));
    count + n
}

/// The piece of a long name that an entry carries, as UTF-8, and its length.
pub fn get_long_name(buf: &[u8]) -> (r: ([u8; 39], usize))
    requires
        buf@.len() >= 32,
    ensures
        r.1 <= 39,
        r.0@.subrange(0, r.1 as int) == spec_long_name(buf@),
{
    let mut units: [u16; 13] = [0u16; 13];
    let first: usize = gather(buf, 0x01, 5, &mut units, 0);
    let second: usize = gather(buf, 0x0E, 6, &mut units, first);
    let count: usize = gather(buf, 0x1C, 2, &mut units, second);
    let ghost all = units@.subrange(0, count as int);
    assert(all =~= spec_units(buf@));
    let mut out: [u8; 39] = [0u8; 39];
    let mut len: usize = 0;
    let mut i: usize = 0;
    assert(all.subrange(0, count as int) =~= all);
    assert(out@.subrange(0, 0) + utf8_until_zero(all) =~= utf8_until_zero(all));
    while i < count && units[i] != 0
        invariant
            i <= count <= 13,
            len <= 3 * i,
            all == units@.subrange(0, count as int),
            utf8_until_zero(all) == out@.subrange(0, len as int) + utf8_until_zero(
                all.subrange(i as int, count as int),
            ),
        decreases count - i,
    {
        let u: u16 = units[i];
        let ghost tail = all.subrange(i as int, count as int);
        let ghost done = out@.subrange(0, len as int);
        assert(tail[0] == u);
        assert(tail.drop_first() =~= all.subrange(i + 1, count as int));
        if u <= 0x7F {
            out[len] = u as u8;
            len += 1;
        } else if u <= 0x7FF {
            out[len] = (0xC0 + u / 64) as u8;
            out[len + 1] = (0x80 + u % 64) as u8;
            len += 2;
        } else {
            out[len] = (0xE0 + u / 4096) as u8;
            out[len + 1] = (0x80 + u / 64 % 64) as u8;
            out[len + 2] = (0x80 + u % 64) as u8;
            len += 3;
        }
        assert(out@.subrange(0, len as int) =~= done + utf8_of_unit(u));
        assert(done + (utf8_of_unit(u) + utf8_until_zero(tail.drop_first())) =~= (done
            + utf8_of_unit(u)) + utf8_until_zero(tail.drop_first()));
        i += 1;
    }
    assert(utf8_until_zero(all.subrange(i as int, count as int)) =~= Seq::<u8>::empty());
    assert(out@.subrange(0, len as int) + Seq::<u8>::empty() =~= out@.subrange(0, len as int));
    (out, len)
}

/// The `N` bytes of `buf` from `start` on up to the first space, filled up
/// with zeros.
pub fn copy_name_part<const N: usize>(buf: &[u8], start: usize) -> (r: [u8; N])
    requires
        start + N <= buf@.len(),
    ensures
        r@ == name_part(buf@, start as int, N as int),
{
    let mut part: [u8; N] = [0u8; N];
    let mut i: usize = 0;
    while i < N && buf[start + i] != 0x20
        invariant
            i <= N,
            start + N <= buf.len(),
            run_end(buf@, start as int, start + N) == run_end(buf@, start + i, start + N),
            forall|k: int| 0 <= k < i ==> part@[k] == buf@[start + k],
            forall|k: int| i <= k < N ==> part@[k] == 0,
        decreases N - i,
    {
        part[i] = buf[start + i];
        i += 1;
    }
    assert(part@ =~= name_part(buf@, start as int, N as int));
    part
}

/// The first cluster that an entry names.
pub fn entry_cluster(entry: &[u8]) -> (r: u32)
    requires
        entry@.len() >= 32,
    ensures
        r == spec_cluster(entry@),
{
    let high: u32 = entry[0x14] as u32 + 256 * (entry[0x15] as u32);
    let low: u32 = entry[0x1A] as u32 + 256 * (entry[0x1B] as u32);
    high * 65536 + low
}

/// The length in bytes that an entry records.
pub fn entry_length(entry: &[u8]) -> (r: u32)
    requires
        entry@.len() >= 32,
    ensures
        r == spec_length(entry@),
{
    let b0: u32 = entry[0x1C] as u32;
    let b1: u32 = entry[0x1D] as u32;
    let b2: u32 = entry[0x1E] as u32;
    let b3: u32 = entry[0x1F] as u32;
    b0 + 256 * b1 + 65536 * b2 + 16777216 * b3
}

/// The short entry of a new, empty object.
pub fn new_entry(name: &[u8; 11], attribute: u8, cluster: u32) -> (r: [u8; 32])
    ensures
        r@ == spec_new_entry(name@, attribute, cluster),
{
    let mut entry: [u8; 32] = [0u8; 32];
    let mut i: usize = 0;
    while i < 11
        invariant
            i <= 11,
            forall|k: int| 0 <= k < i ==> entry@[k] == name@[k],
            forall|k: int| i <= k < 32 ==> entry@[k] == 0,
        decreases 11 - i,
    {
        entry[i] = name[i];
        i += 1;
    }
    entry[0x0B] = attribute;
    entry[0x0C] = 0x18;
    entry[0x14] = (cluster / 65536 % 256) as u8;
    entry[0x15] = (cluster / 16777216) as u8;
    entry[0x1A] = (cluster % 256) as u8;
    entry[0x1B] = (cluster / 256 % 256) as u8;
    assert(entry@ =~= spec_new_entry(name@, attribute, cluster));
    entry
}

} // verus!
