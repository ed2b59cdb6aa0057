//! Looking a name up in a directory, one entry at a time.
//!
//! A directory is a run of 32-byte entries. A file with a long name takes
//! several of them: the pieces of its name, last piece first, and then the
//! short entry that describes the file.

use vstd::prelude::*;
use crate::directory_item::{
    eq_ignore_ascii_case, eq_ignore_case, get_long_name, get_short_name, is_short, is_short_name,
    spec_long_name, spec_short_name, ATTR_LONG_NAME, DELETED_MARK, END_MARK,
};

verus! {

/// What a lookup remembers from the entries it has seen.
#[derive(Debug, Clone, Copy, PartialEq, Eq, Structural)]
pub struct ScanState {
    /// Entries still to pass over unread.
    pub skip: u8,
    /// Leading bytes of a long name that no piece has matched yet.
    pub rest: usize,
    /// Whether the pieces seen last spell the whole long name.
    pub matched: bool,
}

/// What one entry means for a lookup.
#[derive(Debug, Clone, Copy, PartialEq, Eq, Structural)]
pub enum Verdict {
    /// The directory ends here: the name is not in it.
    End,
    /// This entry is the one looked for.
    Found,
    /// The lookup goes on with the next entry.
    Continue,
}

/// The state in which a lookup of a name of `len` bytes starts, and to which
/// it falls back.
pub open spec fn fresh(len: int) -> ScanState {
    ScanState { skip: 0, rest: len as usize, matched: false }
}

/// Whether `piece` ends the first `rest` bytes of `name`.
pub open spec fn ends_with(name: Seq<u8>, rest: int, piece: Seq<u8>) -> bool {
    piece.len() <= rest <= name.len() && name.subrange(rest - piece.len(), rest) == piece
}

/// Entries that belong to the long name of which `e` is a piece and follow
/// `e`: the number in the low five bits of its first byte.
pub open spec fn group_len(e: Seq<u8>) -> u8 {
    e[0] % 32
}

/// What the entry `e` means for a lookup of `name` in state `st`, and the
/// state after it.
///
/// An end mark ends the lookup and a deleted entry changes nothing, whatever
/// the state. Otherwise an entry that is to be skipped is skipped. Of the
/// entries that are read, a piece of a long name is compared with the end of
/// what is still unmatched of a long `name`: the piece numbered 1 that
/// completes the name announces the entry looked for, a piece that fits
/// shortens what is unmatched, and any other piece, like every piece when
/// `name` is short, has its whole group skipped. A short entry is the one
/// looked for if the pieces before it spelled `name`, or if `name` is short
/// and is the entry's name up to the case of letters.
#[verifier::opaque]
pub open spec fn spec_step(name: Seq<u8>, st: ScanState, e: Seq<u8>) -> (Verdict, ScanState) {
    let len = name.len() as int;
    if e[0] == END_MARK {
        (Verdict::End, st)
    } else if e[0] == DELETED_MARK {
        (Verdict::Continue, st)
    } else if st.skip > 0 {
        (Verdict::Continue, ScanState { skip: (st.skip - 1) as u8, ..st })
    } else if e[0x0B] == ATTR_LONG_NAME {
        let piece = spec_long_name(e);
        if st.matched {
            (Verdict::Continue, st)
        } else if is_short(name) || !ends_with(name, st.rest as int, piece) {
            (Verdict::Continue, ScanState { skip: group_len(e), ..fresh(len) })
        } else if group_len(e) == 1 {
            if piece.len() == st.rest {
                (Verdict::Continue, ScanState { matched: true, ..fresh(len) })
            } else {
                (Verdict::Continue, ScanState { skip: 1, ..fresh(len) })
            }
        } else {
            (Verdict::Continue, ScanState { rest: (st.rest - piece.len()) as usize, ..st })
        }
    } else if st.matched || (is_short(name) && eq_ignore_case(name, spec_short_name(e))) {
        (Verdict::Found, st)
    } else {
        (Verdict::Continue, fresh(len))
    }
}

/// Entry `i` of a directory.
pub open spec fn slot(image: Seq<u8>, i: int) -> Seq<u8> {
    image.subrange(32 * i, 32 * i + 32)
}

/// The entry at which a lookup of `name` ends that stands before entry `i`
/// in state `st`; `None` where it ends without a find.
pub open spec fn scan_from(image: Seq<u8>, name: Seq<u8>, i: int, st: ScanState) -> Option<int>
    decreases image.len() - 32 * i,
{
    if i < 0 || 32 * i + 32 > image.len() {
        None
    } else {
        let (verdict, after) = spec_step(name, st, slot(image, i));
        match verdict {
            Verdict::End => None,
            Verdict::Found => Some(i),
            Verdict::Continue => scan_from(image, name, i + 1, after),
        }
    }
}

/// The entry of the directory `image` that `name` leads to.
pub open spec fn spec_resolve(image: Seq<u8>, name: Seq<u8>) -> Option<int> {
    scan_from(image, name, 0, fresh(name.len() as int))
}

/// The first entry at or after entry `i` that starts with an end mark.
pub open spec fn blank_from(image: Seq<u8>, i: int) -> Option<int>
    decreases image.len() - 32 * i,
{
    if i < 0 || 32 * i + 32 > image.len() {
        None
    } else if image[32 * i] == END_MARK {
        Some(i)
    } else {
        blank_from(image, i + 1)
    }
}

/// The first entry of the directory `image` that starts with an end mark.
pub open spec fn spec_first_blank(image: Seq<u8>) -> Option<int> {
    blank_from(image, 0)
}

/// The state in which a lookup that stands before entry `i` in state `st`
/// comes to entry `k`; `None` where it ends before.
pub open spec fn arrival(image: Seq<u8>, name: Seq<u8>, i: int, st: ScanState, k: int) -> Option<
    ScanState,
>
    decreases k - i,
{
    if i >= k {
        if i == k {
            Some(st)
        } else {
            None
        }
    } else if i < 0 || 32 * i + 32 > image.len() {
        None
    } else {
        let (verdict, after) = spec_step(name, st, slot(image, i));
        match verdict {
            Verdict::Continue => arrival(image, name, i + 1, after, k),
            _ => None,
        }
    }
}

/// A lookup that comes to entry `k` ends where the lookup from `k` on ends.
pub proof fn lemma_arrival_scan(image: Seq<u8>, name: Seq<u8>, i: int, st: ScanState, k: int)
    requires
        0 <= i <= k,
        arrival(image, name, i, st, k) is Some,
    ensures
        scan_from(image, name, i, st) == scan_from(
            image,
            name,
            k,
            arrival(image, name, i, st, k).unwrap(),
        ),
    decreases k - i,
{
    if i < k {
        let (verdict, after) = spec_step(name, st, slot(image, i));
        lemma_arrival_scan(image, name, i + 1, after, k);
    }
}

/// Lookups in two directories that agree in the entries `i` to `k - 1` come
/// to entry `k` in the same state.
pub proof fn lemma_arrival_same(
    a: Seq<u8>,
    b: Seq<u8>,
    name: Seq<u8>,
    i: int,
    st: ScanState,
    k: int,
)
    requires
        0 <= i <= k,
        a.len() == b.len(),
        forall|m: int| i <= m < k ==> #[trigger] slot(a, m) == slot(b, m),
    ensures
        arrival(a, name, i, st, k) == arrival(b, name, i, st, k),
    decreases k - i,
{
    if i < k && 32 * i + 32 <= a.len() {
        assert(slot(a, i) == slot(b, i));
        let (verdict, after) = spec_step(name, st, slot(a, i));
        lemma_arrival_same(a, b, name, i + 1, after, k);
    }
}

/// The first blank entry from `i` on starts with an end mark, lies in the
/// directory, and no entry between `i` and it starts with an end mark.
pub proof fn lemma_blank_from(image: Seq<u8>, i: int)
    requires
        0 <= i,
    ensures
        match blank_from(image, i) {
            Some(k) => {
                &&& i <= k
                &&& 32 * k + 32 <= image.len()
                &&& slot(image, k)[0] == END_MARK
                &&& forall|m: int| i <= m < k ==> (#[trigger] slot(image, m))[0] != END_MARK
            },
            None => forall|m: int|
                i <= m && 32 * m + 32 <= image.len() ==> (#[trigger] slot(image, m))[0]
                    != END_MARK,
        },
    decreases image.len() - 32 * i,
{
    if 32 * i + 32 <= image.len() {
        assert(slot(image, i)[0] == image[32 * i]);
        if image[32 * i] != END_MARK {
            lemma_blank_from(image, i + 1);
        }
    }
}

/// A lookup of a short name that reads a short entry of that name, up to the
/// case of letters, has found it.
pub proof fn lemma_found_at(image: Seq<u8>, name: Seq<u8>, k: int, st: ScanState)
    requires
        0 <= k,
        32 * k + 32 <= image.len(),
        st.skip == 0,
        slot(image, k)[0] != END_MARK,
        slot(image, k)[0] != DELETED_MARK,
        slot(image, k)[0x0B] != ATTR_LONG_NAME,
        is_short(name),
        eq_ignore_case(name, spec_short_name(slot(image, k))),
    ensures
        scan_from(image, name, k, st) == Some(k),
{
    reveal(spec_step);
}

/// A lookup that meets an end mark ends there without a find, whatever it
/// has seen before.
pub proof fn lemma_end_mark_stops(image: Seq<u8>, name: Seq<u8>, i: int, st: ScanState)
    requires
        0 <= i,
        32 * i + 32 <= image.len(),
        image[32 * i] == END_MARK,
    ensures
        scan_from(image, name, i, st) is None,
{
    reveal(spec_step);
    assert(slot(image, i)[0] == image[32 * i]);
}

/// A directory whose first entry starts with an end mark holds no name.
pub proof fn lemma_empty_directory(image: Seq<u8>, name: Seq<u8>)
    requires
        image.len() >= 32,
        image[0] == END_MARK,
    ensures
        spec_resolve(image, name) is None,
{
    lemma_end_mark_stops(image, name, 0, fresh(name.len() as int));
}

/// A lookup passes over a deleted entry as if it were not there: it goes on
/// behind it in the state in which it came.
pub proof fn lemma_deleted_passed_over(image: Seq<u8>, name: Seq<u8>, i: int, st: ScanState)
    requires
        0 <= i,
        32 * i + 32 <= image.len(),
        image[32 * i] == DELETED_MARK,
    ensures
        scan_from(image, name, i, st) == scan_from(image, name, i + 1, st),
{
    reveal(spec_step);
    assert(slot(image, i)[0] == image[32 * i]);
}

/// The state in which a lookup of `name` starts.
pub fn start(name: &[u8]) -> (r: ScanState)
    ensures
        r == fresh(name@.len() as int),
{
    ScanState { skip: 0, rest: name.len(), matched: false }
}

/// Whether the `len` bytes of `piece` end the first `rest` bytes of `name`.
fn is_end_of(name: &[u8], rest: usize, piece: &[u8; 39], len: usize) -> (r: bool)
    requires
        rest <= name@.len(),
        len <= 39,
    ensures
        r == ends_with(name@, rest as int, piece@.subrange(0, len as int)),
{
    if len > rest {
        return false;
    }
    let from: usize = rest - len;
    let mut i: usize = 0;
    while i < len
        invariant
            i <= len <= 39,
            from + len == rest <= name@.len(),
            forall|k: int| 0 <= k < i ==> name@[from + k] == piece@[k],
        decreases len - i,
    {
        if name[from + i] != piece[i] {
            assert(name@.subrange(from as int, rest as int)[i as int] != piece@.subrange(
                0,
                len as int,
            )[i as int]);
            return false;
        }
        i += 1;
    }
    assert(name@.subrange(from as int, rest as int) =~= piece@.subrange(0, len as int));
    true
}

/// What `entry` means for a lookup of `name` in state `st`, and the state
/// after it.
pub fn step(name: &[u8], st: ScanState, entry: &[u8]) -> (r: (Verdict, ScanState))
    requires
        entry@.len() >= 32,
        st.rest <= name@.len(),
    ensures
        r == spec_step(name@, st, entry@),
        r.1.rest <= name@.len(),
{
    reveal(spec_step);
    let first: u8 = entry[0];
    if first == END_MARK {
        return (Verdict::End, st);
    }
    if first == DELETED_MARK {
        return (Verdict::Continue, st);
    }
    if st.skip > 0 {
        return (Verdict::Continue, ScanState { skip: st.skip - 1, rest: st.rest, matched: st.matched });
    }
    let short: bool = is_short_name(name);
    if entry[0x0B] == ATTR_LONG_NAME {
        if st.matched {
            return (Verdict::Continue, st);
        }
        let group: u8 = first % 32;
        if short {
            return (Verdict::Continue, ScanState { skip: group, rest: name.len(), matched: false });
        }
        let (piece, len) = get_long_name(entry);
        if !is_end_of(name, st.rest, &piece, len) {
            return (Verdict::Continue, ScanState { skip: group, rest: name.len(), matched: false });
        }
        if group == 1 {
            if len == st.rest {
                return (Verdict::Continue, ScanState { skip: 0, rest: name.len(), matched: true });
            }
            return (Verdict::Continue, ScanState { skip: 1, rest: name.len(), matched: false });
        }
        return (Verdict::Continue, ScanState { skip: st.skip, rest: st.rest - len, matched: st.matched });
    }
    if st.matched {
        return (Verdict::Found, st);
    }
    if short {
        let (shown, len) = get_short_name(entry);
        let shown_name = vstd::slice::slice_subrange(shown.as_slice(), 0, len);
        if eq_ignore_ascii_case(name, shown_name) {
            return (Verdict::Found, st);
        }
    }
    (Verdict::Continue, start(name))
}

} // verus!
