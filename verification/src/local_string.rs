//! The LOCAL string representation: the text, inline or in a shared blob, its
//! char count cached at construction, and the sparse char-to-byte index that
//! keeps char-indexed access to a long non-ASCII string from walking from the
//! start.
//!
//! A string is a sequence of chars stored as UTF-8; the byte offset of char `k`
//! is the length of the encoding of the first `k` chars.

use vstd::prelude::*;
use std::sync::Arc;
use vstd::utf8::{encode_utf8, encode_scalar, valid_utf8, decode_utf8};
use vstd::string::StringSliceAdditionalSpecFns;

verus! {

broadcast use vstd::utf8::group_utf8_lib;

/// One index mark per this many chars.
pub const CHAR_INDEX_STRIDE: usize = 32;

/// Below this many chars a conversion walks and no index is built.
pub const CHAR_INDEX_MIN_CHARS: usize = 256;

/// Strings of at least this many bytes are stored in a shared blob.
pub const SHARED_BLOB_THRESHOLD: usize = 1024;

/// The number of bytes char `c` encodes to.
pub open spec fn char_width(c: char) -> nat {
    encode_scalar(c as u32).len()
}

/// The byte offset of char `k` of `t`.
pub open spec fn byte_of(t: Seq<char>, k: int) -> nat {
    encode_utf8(t.take(k)).len()
}

/// Every char of `t` is ASCII, i.e. encodes to one byte.
pub open spec fn all_ascii(t: Seq<char>) -> bool {
    encode_utf8(t).len() == t.len()
}

/// The index marks of `t`: the byte offset of every `STRIDE`-th char after the
/// first, one per whole stride before the last char.
pub open spec fn index_marks(t: Seq<char>) -> Seq<nat> {
    if t.len() == 0 {
        Seq::empty()
    } else {
        Seq::new(
            ((t.len() - 1) / CHAR_INDEX_STRIDE as int) as nat,
            |k: int| byte_of(t, (k + 1) * CHAR_INDEX_STRIDE as int),
        )
    }
}

/// The encoding of a sequence with one more char.
pub proof fn lemma_encode_push(a: Seq<char>, c: char)
    ensures
        encode_utf8(a.push(c)) == encode_utf8(a) + encode_scalar(c as u32),
    decreases a.len(),
{
    if a.len() == 0 {
        assert(a.push(c).drop_first() =~= Seq::<char>::empty());
        assert(encode_utf8(a.push(c)) =~= encode_scalar(c as u32) + encode_utf8(Seq::<char>::empty()));
    } else {
        lemma_encode_push(a.drop_first(), c);
        assert(a.push(c).drop_first() =~= a.drop_first().push(c));
        assert(encode_utf8(a.push(c)) =~= encode_utf8(a) + encode_scalar(c as u32));
    }
}

/// One char further, the byte offset grows by that char's width.
pub proof fn lemma_byte_of_step(t: Seq<char>, k: int)
    requires
        0 <= k < t.len(),
    ensures
        byte_of(t, k + 1) == byte_of(t, k) + char_width(t[k]),
{
    assert(t.take(k + 1) =~= t.take(k).push(t[k]));
    lemma_encode_push(t.take(k), t[k]);
}

/// Every char encodes to one to four bytes.
pub proof fn lemma_char_width_bounds(c: char)
    ensures
        1 <= char_width(c) <= 4,
{
}

/// Byte offsets never decrease, and grow by at least one per char.
pub proof fn lemma_byte_of_mono(t: Seq<char>, i: int, j: int)
    requires
        0 <= i <= j <= t.len(),
    ensures
        byte_of(t, i) + (j - i) <= byte_of(t, j),
    decreases j - i,
{
    if i < j {
        lemma_byte_of_mono(t, i, j - 1);
        lemma_byte_of_step(t, j - 1);
        lemma_char_width_bounds(t[j - 1]);
    }
}

/// The byte offset of the end is the encoding's length.
pub proof fn lemma_byte_of_end(t: Seq<char>)
    ensures
        byte_of(t, t.len() as int) == encode_utf8(t).len(),
{
    assert(t.take(t.len() as int) =~= t);
}

/// The length of a text's UTF-8 encoding.
pub fn byte_len(s: &str) -> (r: usize)
    ensures
        r == encode_utf8(s@).len(),
{
    s.as_bytes().len()
}

/// The bytes `c` encodes to.
pub fn char_width_of(c: char) -> (r: usize)
    ensures
        r == char_width(c),
        1 <= r <= 4,
{
    let u = c as u32;
    if u <= 0x7F {
        1
    } else if u <= 0x7FF {
        2
    } else if u <= 0xFFFF {
        3
    } else {
        4
    }
}

/// A sparse char-to-byte index: `marks[k]` is the byte offset of char
/// `(k + 1) * STRIDE`.
pub struct CharIndex {
    pub marks: Vec<u32>,
}

impl CharIndex {
    /// One pass over the chars, recording every `STRIDE`-th char boundary.
    pub fn build(s: &str, chars: usize) -> (r: CharIndex)
        requires
            chars == s@.len(),
            encode_utf8(s@).len() <= u32::MAX,
        ensures
            r.marks@.len() == index_marks(s@).len(),
            forall|k: int| 0 <= k < r.marks@.len() ==> r.marks@[k] == #[trigger] index_marks(s@)[k],
    {
        let ghost t = s@;
        let mut marks: Vec<u32> = Vec::new();
        let mut b: usize = 0;
        let mut k: usize = 0;
        proof {
            assert(t.take(0) =~= Seq::<char>::empty());
            lemma_byte_of_end(t);
        }
        proof {
            lemma_byte_of_mono(t, 0, t.len() as int);
        }
        for c in it: s.chars()
            invariant
                t == s@,
                it.seq() == t,
                k == it.index(),
                k <= t.len(),
                t.len() <= u32::MAX,
                b == byte_of(t, k as int),
                byte_of(t, t.len() as int) <= u32::MAX,
                marks@.len() == (if k == 0 { 0 } else { ((k - 1) / CHAR_INDEX_STRIDE as int) as nat }),
                forall|j: int| 0 <= j < marks@.len() ==> marks@[j] == byte_of(t, (j + 1) * CHAR_INDEX_STRIDE as int),
        {
            proof {
                lemma_byte_of_mono(t, k as int, t.len() as int);
                lemma_byte_of_step(t, k as int);
                lemma_byte_of_mono(t, k + 1, t.len() as int);
            }
            if k > 0 && k % CHAR_INDEX_STRIDE == 0 {
                marks.push(b as u32);
            }
            b = b + char_width_of(c);
            k = k + 1;
        }
        proof {
            assert(marks@.len() == index_marks(t).len());
        }
        CharIndex { marks }
    }

    /// The nearest indexed point at or before char `ci`: `(char index, byte offset)`.
    pub fn floor_char(&self, ci: usize) -> (r: (usize, usize))
        requires
            forall|k: int| 0 <= k < self.marks@.len() ==> self.marks@[k] <= usize::MAX,
            self.marks@.len() * CHAR_INDEX_STRIDE <= usize::MAX,
        ensures
            ({
                let k = if (ci / CHAR_INDEX_STRIDE) as int <= self.marks@.len() {
                    (ci / CHAR_INDEX_STRIDE) as int
                } else {
                    self.marks@.len() as int
                };
                if k == 0 {
                    r == (0usize, 0usize)
                } else {
                    r.0 == k * CHAR_INDEX_STRIDE && r.1 == self.marks@[k - 1]
                }
            }),
    {
        let q = ci / CHAR_INDEX_STRIDE;
        let k = if q <= self.marks.len() { q } else { self.marks.len() };
        if k == 0 {
            (0, 0)
        } else {
            (k * CHAR_INDEX_STRIDE, self.marks[k - 1] as usize)
        }
    }

    /// The nearest indexed point at or before byte offset `b`: `(char index, byte
    /// offset)`, by binary search over the ascending marks.
    pub fn floor_byte(&self, b: usize) -> (r: (usize, usize))
        requires
            forall|i: int, j: int| 0 <= i < j < self.marks@.len() ==> self.marks@[i] < self.marks@[j],
            self.marks@.len() * CHAR_INDEX_STRIDE <= usize::MAX,
        ensures
            ({
                let k = r.0 as int / CHAR_INDEX_STRIDE as int;
                &&& r.0 as int % CHAR_INDEX_STRIDE as int == 0
                &&& 0 <= k <= self.marks@.len()
                &&& forall|i: int| 0 <= i < k ==> self.marks@[i] <= b
                &&& forall|i: int| k <= i < self.marks@.len() ==> self.marks@[i] > b
                &&& if k == 0 {
                    r.1 == 0
                } else {
                    r.1 == self.marks@[k - 1]
                }
            }),
    {
        let mut lo: usize = 0;
        let mut hi: usize = self.marks.len();
        while lo < hi
            invariant
                0 <= lo <= hi <= self.marks@.len(),
                forall|i: int, j: int| 0 <= i < j < self.marks@.len() ==> self.marks@[i] < self.marks@[j],
                forall|i: int| 0 <= i < lo ==> self.marks@[i] <= b,
                forall|i: int| hi <= i < self.marks@.len() ==> self.marks@[i] > b,
            decreases hi - lo,
        {
            let mid = lo + (hi - lo) / 2;
            if (self.marks[mid] as usize) <= b {
                lo = mid + 1;
            } else {
                hi = mid;
            }
        }
        if lo == 0 {
            (0, 0)
        } else {
            (lo * CHAR_INDEX_STRIDE, self.marks[lo - 1] as usize)
        }
    }
}

/// Raw bytes shared between processes by reference count.
pub struct SharedBlob {
    bytes: Vec<u8>,
}

impl SharedBlob {
    /// The blob's bytes.
    pub closed spec fn view(&self) -> Seq<u8> {
        self.bytes@
    }

    /// A blob holding a copy of `bytes`.
    pub fn new(bytes: &[u8]) -> (r: Arc<SharedBlob>)
        ensures
            r@ == bytes@,
    {
        Arc::new(SharedBlob { bytes: vstd::slice::slice_to_vec(bytes) })
    }

    /// The blob's bytes.
    pub fn as_bytes(&self) -> (r: &[u8])
        ensures
            r@ == self@,
    {
        self.bytes.as_slice()
    }
}

/// The text of valid UTF-8 bytes, read through `std::str::from_utf8`, which
/// accepts exactly the valid UTF-8 byte sequences and then borrows them as text.
#[verifier::external_body]
fn utf8_text(bytes: &[u8]) -> (r: &str)
    requires
        valid_utf8(bytes@),
    ensures
        r.spec_bytes() == bytes@,
{
    std::str::from_utf8(bytes).unwrap()
}

/// Where a string's bytes live.
pub enum StrData {
    Inline(String),
    Shared(Arc<SharedBlob>),
}

/// Whether a text pays for a char-to-byte index: it is long, not pure ASCII,
/// and every byte offset fits a `u32`.
pub open spec fn pays_for_index(t: Seq<char>) -> bool {
    t.len() >= CHAR_INDEX_MIN_CHARS && !all_ascii(t) && encode_utf8(t).len() <= u32::MAX
}

/// The side tables of one string value.
pub struct StrAux {
    /// The char-to-byte index, once built.
    pub index: Option<CharIndex>,
}

/// A LOCAL string slab entry: the text and its cached char count, with the side
/// tables built when asked for.
pub struct LocalString {
    data: StrData,
    chars: usize,
    aux: Option<Box<StrAux>>,
}

impl LocalString {
    /// The text.
    pub closed spec fn view(&self) -> Seq<char> {
        match self.data {
            StrData::Inline(s) => s@,
            StrData::Shared(b) => decode_utf8(b@),
        }
    }

    /// The entry's invariant: the cached count is the text's length, shared bytes
    /// are valid UTF-8, and a built index is the text's.
    pub closed spec fn wf(&self) -> bool {
        &&& self.chars == self@.len()
        &&& (self.data matches StrData::Shared(b) ==> valid_utf8(b@))
        &&& (self.aux matches Some(a) ==> (a.index matches Some(ix) ==> {
            &&& ix.marks@.len() == index_marks(self@).len()
            &&& forall|k: int| 0 <= k < ix.marks@.len() ==> ix.marks@[k] == #[trigger] index_marks(self@)[k]
        }))
    }

    /// Whether the entry holds a built char-to-byte index.
    pub closed spec fn index_built(&self) -> bool {
        self.aux matches Some(a) && a.index is Some
    }

    /// An inline entry for `s`.
    pub fn inline(s: String) -> (r: LocalString)
        ensures
            r.wf(),
            r@ == s@,
    {
        let chars = s.as_str().unicode_len();
        LocalString { data: StrData::Inline(s), chars, aux: None }
    }

    /// An entry whose bytes live in a shared blob.
    pub fn shared(b: Arc<SharedBlob>) -> (r: LocalString)
        requires
            valid_utf8(b@),
        ensures
            r.wf(),
            r@ == decode_utf8(b@),
    {
        let chars = utf8_text(b.as_bytes()).unicode_len();
        proof {
            vstd::utf8::decode_utf8_encode_utf8(b@);
        }
        LocalString { data: StrData::Shared(b), chars, aux: None }
    }

    /// The text, borrowed.
    pub fn as_str(&self) -> (r: &str)
        requires
            self.wf(),
        ensures
            r@ == self@,
    {
        match &self.data {
            StrData::Inline(s) => s.as_str(),
            StrData::Shared(b) => {
                let r = utf8_text(b.as_bytes());
                proof {
                    vstd::utf8::encode_utf8_decode_utf8(r@);
                }
                r
            },
        }
    }

    /// The cached number of chars.
    pub fn char_len(&self) -> (r: usize)
        requires
            self.wf(),
        ensures
            r == self@.len(),
    {
        self.chars
    }

    /// Is the text pure ASCII, i.e. is a char index also a byte offset?
    pub fn is_ascii(&self) -> (r: bool)
        requires
            self.wf(),
        ensures
            r == all_ascii(self@),
    {
        self.chars == byte_len(self.as_str())
    }

    /// The char-to-byte index, for a string that pays for one: `None` for ASCII
    /// (conversion is arithmetic), for fewer than `CHAR_INDEX_MIN_CHARS` chars
    /// (a walk is short), and for text past a `u32` byte offset.
    pub fn char_index(&self) -> (r: Option<CharIndex>)
        requires
            self.wf(),
        ensures
            r is Some <==> (self@.len() >= CHAR_INDEX_MIN_CHARS && !all_ascii(self@) && encode_utf8(self@).len()
                <= u32::MAX),
            r matches Some(ix) ==> ix.marks@.len() == index_marks(self@).len() && forall|k: int|
                0 <= k < ix.marks@.len() ==> ix.marks@[k] == #[trigger] index_marks(self@)[k],
    {
        if self.chars < CHAR_INDEX_MIN_CHARS {
            return None;
        }
        let s = self.as_str();
        let n = byte_len(s);
        if self.chars == n || n > 0xFFFF_FFFFusize {
            return None;
        }
        match &self.aux {
            Some(a) => match &a.index {
                Some(ix) => {
                    let marks = ix.marks.clone();
                    proof {
                        assert(marks@ =~= ix.marks@);
                    }
                    return Some(CharIndex { marks });
                },
                None => {},
            },
            None => {},
        }
        Some(CharIndex::build(s, self.chars))
    }

    /// Build and keep the char-to-byte index, when the string pays for one.
    pub fn prepare_index(&mut self)
        requires
            old(self).wf(),
        ensures
            final(self).wf(),
            final(self)@ == old(self)@,
            pays_for_index(old(self)@) ==> final(self).index_built(),
            !pays_for_index(old(self)@) ==> final(self).index_built() == old(self).index_built(),
    {
        let ix = self.char_index();
        match ix {
            Some(ix) => {
                self.aux = Some(Box::new(StrAux { index: Some(ix) }));
            },
            None => {},
        }
    }

    /// Byte offset of char `ci`, clamped to the end of the text.
    pub fn char_to_byte(&self, ci: usize) -> (r: usize)
        requires
            self.wf(),
        ensures
            r == byte_of(self@, if ci <= self@.len() { ci as int } else { self@.len() as int }),
    {
        let s = self.as_str();
        let ghost t = s@;
        proof {
            lemma_byte_of_end(t);
        }
        let n = byte_len(s);
        if self.chars == n {
            proof {
                lemma_all_ascii_bytes(t, if ci <= t.len() { ci as int } else { t.len() as int });
            }
            return if ci < n { ci } else { n };
        }
        if ci >= self.chars {
            return n;
        }
        let mut b: usize = 0;
        let mut k: usize = 0;
        proof {
            assert(t.take(0) =~= Seq::<char>::empty());
        }
        for c in it: s.chars()
            invariant_except_break
                k == it.index(),
            invariant
                t == s@,
                it.seq() == t,
                k <= ci < t.len(),
                b == byte_of(t, k as int),
                byte_of(t, t.len() as int) <= usize::MAX,
            ensures
                b == byte_of(t, ci as int),
        {
            if k == ci {
                break;
            }
            proof {
                lemma_byte_of_step(t, k as int);
                lemma_byte_of_mono(t, k + 1, t.len() as int);
            }
            b = b + char_width_of(c);
            k = k + 1;
        }
        b
    }

    /// Char index of byte offset `b`, which must be the offset of a char or the end.
    pub fn byte_to_char(&self, b: usize) -> (r: usize)
        requires
            self.wf(),
            exists|ci: int| 0 <= ci <= self@.len() && byte_of(self@, ci) == b,
        ensures
            r <= self@.len(),
            byte_of(self@, r as int) == b,
    {
        let s = self.as_str();
        let ghost t = s@;
        let ghost target = choose|ci: int| 0 <= ci <= t.len() && byte_of(t, ci) == b;
        proof {
            lemma_byte_of_end(t);
        }
        let n = byte_len(s);
        if self.chars == n {
            proof {
                lemma_all_ascii_bytes(t, target);
                lemma_byte_of_end(t);
            }
            return b;
        }
        let mut pos: usize = 0;
        let mut k: usize = 0;
        proof {
            assert(t.take(0) =~= Seq::<char>::empty());
            lemma_byte_of_mono(t, 0, target);
            lemma_byte_of_mono(t, 0, t.len() as int);
        }
        for c in it: s.chars()
            invariant_except_break
                k == it.index(),
            invariant
                t == s@,
                it.seq() == t,
                k <= target <= t.len(),
                t.len() <= usize::MAX,
                byte_of(t, target) == b,
                pos == byte_of(t, k as int),
                pos <= b,
                byte_of(t, t.len() as int) <= usize::MAX,
            ensures
                k == target,
        {
            if pos == b {
                proof {
                    if k < target {
                        lemma_byte_of_mono(t, k as int, target);
                    }
                }
                break;
            }
            proof {
                lemma_byte_of_step(t, k as int);
                lemma_byte_of_mono(t, k + 1, t.len() as int);
                if k + 1 > target {
                    lemma_byte_of_mono(t, target, k as int);
                }
                if k + 1 <= target {
                    lemma_byte_of_mono(t, k + 1, target);
                }
            }
            pos = pos + char_width_of(c);
            k = k + 1;
        }
        k
    }
}

/// In an ASCII text, the byte offset of char `k` is `k`.
pub proof fn lemma_all_ascii_bytes(t: Seq<char>, k: int)
    requires
        all_ascii(t),
        0 <= k <= t.len(),
    ensures
        byte_of(t, k) == k,
{
    lemma_byte_of_mono(t, 0, k);
    lemma_byte_of_mono(t, k, t.len() as int);
    lemma_byte_of_end(t);
    assert(t.take(0) =~= Seq::<char>::empty());
}

} // verus!
