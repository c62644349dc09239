//! Pure models of domain names: how a dotted name is cut into labels and laid
//! out on the wire, and how a name on the wire, compression pointers
//! included, is read back.

use vstd::prelude::*;
use vstd::utf8::{decode_utf8, encode_utf8, is_ascii_chars, valid_utf8};
use vstd::string::StringSliceAdditionalSpecFns;
use crate::error::DnsError;
use crate::wire::CAPACITY;

verus! {

/// The longest label that the six-bit length field can announce.
pub const MAX_LABEL: usize = 63;

/// How many compression pointers one name may follow.
pub const MAX_JUMPS: usize = 5;

/// The byte that separates the labels of a dotted name.
pub const DOT: u8 = 0x2E;

/// The index of the first dot in `s`, or the length of `s` if it has none.
pub open spec fn first_dot(s: Seq<u8>) -> int
    decreases s.len(),
{
    if s.len() == 0 || s[0] == DOT {
        0
    } else {
        1 + first_dot(s.drop_first())
    }
}

/// The labels of a dotted name: the stretches between its dots. A name
/// without a dot is one label, the empty name included.
pub open spec fn split_labels(s: Seq<u8>) -> Seq<Seq<u8>>
    decreases s.len(),
{
    let d = first_dot(s);
    if 0 <= d < s.len() {
        seq![s.take(d)] + split_labels(s.skip(d + 1))
    } else {
        seq![s]
    }
}

/// The bytes that writing something sets out to write, and whether they are
/// all of it: writing stops short before a label that is too long.
pub struct Attempt {
    pub bytes: Seq<u8>,
    pub complete: bool,
}

impl Attempt {
    /// One attempt followed by another, which is not begun when the first
    /// stopped short.
    pub open spec fn followed_by(self, next: Attempt) -> Attempt {
        if self.complete {
            Attempt { bytes: self.bytes + next.bytes, complete: next.complete }
        } else {
            self
        }
    }

    /// An attempt at bytes that can always be written.
    pub open spec fn plain(bytes: Seq<u8>) -> Attempt {
        Attempt { bytes, complete: true }
    }
}

/// The wire form of a list of labels: each label behind its length byte,
/// then a zero byte. It stops before the first label longer than 63 bytes.
pub open spec fn labels_attempt(labels: Seq<Seq<u8>>) -> Attempt
    decreases labels.len(),
{
    if labels.len() == 0 {
        Attempt::plain(seq![0u8])
    } else if labels[0].len() > MAX_LABEL {
        Attempt { bytes: Seq::empty(), complete: false }
    } else {
        Attempt::plain(seq![labels[0].len() as u8] + labels[0]).followed_by(
            labels_attempt(labels.drop_first()),
        )
    }
}

/// The uncompressed wire form of a dotted name, given by its bytes.
pub open spec fn name_attempt(name: Seq<u8>) -> Attempt {
    labels_attempt(split_labels(name))
}

/// A length byte with its two top bits set announces a compression pointer.
pub open spec fn is_pointer(b: u8) -> bool {
    b >= 0xC0
}

/// The offset that the two bytes of a compression pointer name.
pub open spec fn pointer_target(b1: u8, b2: u8) -> int {
    (b1 - 0xC0) * 256 + b2
}

/// The labels of the name that starts at `pos`, compression pointers
/// followed, when `jumps` pointers have been followed already. Reading
/// fails when a seventh pointer would have to be followed, and when a
/// length byte, a pointer's second byte or a label lies beyond the capacity.
pub open spec fn parse_labels(buf: Seq<u8>, pos: int, jumps: int) -> Result<
    Seq<Seq<u8>>,
    DnsError,
>
    recommends
        buf.len() == CAPACITY,
    decreases MAX_JUMPS + 1 - jumps, CAPACITY - pos,
{
    if jumps > MAX_JUMPS {
        Err(DnsError::MalformedName)
    } else if pos < 0 || pos >= CAPACITY {
        Err(DnsError::BufferBounds)
    } else if is_pointer(buf[pos]) {
        if pos + 1 >= CAPACITY {
            Err(DnsError::BufferBounds)
        } else {
            parse_labels(buf, pointer_target(buf[pos], buf[pos + 1]), jumps + 1)
        }
    } else if buf[pos] == 0 {
        Ok(Seq::empty())
    } else if pos + 1 + buf[pos] > CAPACITY {
        Err(DnsError::BufferBounds)
    } else {
        prepend_labels(
            seq![buf.subrange(pos + 1, pos + 1 + buf[pos])],
            parse_labels(buf, pos + 1 + buf[pos], jumps),
        )
    }
}

/// `seen` put before the labels that the rest of a name gave, if it gave
/// any.
pub open spec fn prepend_labels(seen: Seq<Seq<u8>>, rest: Result<Seq<Seq<u8>>, DnsError>) -> Result<
    Seq<Seq<u8>>,
    DnsError,
> {
    match rest {
        Ok(labels) => Ok(seen + labels),
        Err(e) => Err(e),
    }
}

/// Where the field behind the name at `pos` starts: behind the name's zero
/// byte, or behind its first compression pointer.
pub open spec fn name_end(buf: Seq<u8>, pos: int) -> int
    recommends
        buf.len() == CAPACITY,
    decreases CAPACITY - pos,
{
    if pos < 0 || pos >= CAPACITY {
        pos
    } else if is_pointer(buf[pos]) {
        pos + 2
    } else if buf[pos] == 0 {
        pos + 1
    } else if pos + 1 + buf[pos] > CAPACITY {
        pos
    } else {
        name_end(buf, pos + 1 + buf[pos])
    }
}

/// The text that `String::from_utf8_lossy` makes of bytes that are not valid
/// UTF-8.
pub uninterp spec fn utf8_lossy(bytes: Seq<u8>) -> Seq<char>;

/// The text that `str::to_lowercase` makes of a text that is not all ASCII.
pub uninterp spec fn lowercase(text: Seq<char>) -> Seq<char>;

/// The text of a run of bytes: what they decode to where they are valid
/// UTF-8.
pub open spec fn lossy_text(bytes: Seq<u8>) -> Seq<char> {
    if valid_utf8(bytes) {
        decode_utf8(bytes)
    } else {
        utf8_lossy(bytes)
    }
}

/// An ASCII capital letter turned into its small letter; any other
/// character as it is.
pub open spec fn ascii_lower(c: char) -> char {
    if 'A' <= c <= 'Z' {
        ((c as u8) + 32) as char
    } else {
        c
    }
}

/// A text in lower case: character by character where it is all ASCII.
pub open spec fn lowered(text: Seq<char>) -> Seq<char> {
    if is_ascii_chars(text) {
        Seq::new(text.len(), |i: int| ascii_lower(text[i]))
    } else {
        lowercase(text)
    }
}

/// The text of one label as it is read from the wire.
pub open spec fn label_text(bytes: Seq<u8>) -> Seq<char> {
    lowered(lossy_text(bytes))
}

/// The dotted text of a list of labels.
pub open spec fn name_text(labels: Seq<Seq<u8>>) -> Seq<char>
    decreases labels.len(),
{
    if labels.len() == 0 {
        Seq::empty()
    } else if labels.len() == 1 {
        label_text(labels[0])
    } else {
        name_text(labels.drop_last()) + seq!['.'] + label_text(labels.last())
    }
}

/// Calls `String::from_utf8_lossy`. Bytes that are valid UTF-8 come back as
/// the text they encode; of any other bytes the result is only named.
#[verifier::external_body]
pub(crate) fn utf8_lossy_string(bytes: &[u8]) -> (text: String)
    ensures
        valid_utf8(bytes@) ==> text@ == decode_utf8(bytes@),
        !valid_utf8(bytes@) ==> text@ == utf8_lossy(bytes@),
{
    String::from_utf8_lossy(bytes).into_owned()
}

/// Calls `str::to_lowercase`. In a text that is all ASCII each capital letter
/// becomes its small letter and nothing else changes; of any other text the
/// result is only named.
#[verifier::external_body]
pub(crate) fn lowercase_string(text: &str) -> (lower: String)
    ensures
        is_ascii_chars(text@) ==> lower@ == Seq::new(text@.len(), |i: int| ascii_lower(text@[i])),
        !is_ascii_chars(text@) ==> lower@ == lowercase(text@),
{
    text.to_lowercase()
}

/// The text of one label: its bytes as text, in lower case.
pub fn label_string(bytes: &[u8]) -> (text: String)
    ensures
        text@ == label_text(bytes@),
{
    let raw = utf8_lossy_string(bytes);
    lowercase_string(raw.as_str())
}

/// Whether the zone named `zone` holds the name `qname`: the zone's labels
/// are the last labels of the name. Both are given by their bytes. The root
/// zone, whose name is empty, holds every name.
pub open spec fn covers(zone: Seq<u8>, qname: Seq<u8>) -> bool {
    zone.len() == 0 || (zone.len() <= qname.len() && qname.skip(qname.len() - zone.len()) == zone
        && (zone.len() == qname.len() || qname[qname.len() - zone.len() - 1] == DOT))
}

/// Whether the zone named `zone` holds the name `qname`.
pub fn zone_covers(zone: &str, qname: &str) -> (r: bool)
    ensures
        r == covers(encode_utf8(zone@), encode_utf8(qname@)),
{
    let z = zone.as_bytes();
    let q = qname.as_bytes();
    if z.len() == 0 {
        return true;
    }
    if z.len() > q.len() {
        return false;
    }
    let off = q.len() - z.len();
    if off > 0 && q[off - 1] != DOT {
        return false;
    }
    let mut i: usize = 0;
    while i < z.len()
        invariant
            i <= z@.len(),
            z@ == zone.spec_bytes(),
            q@ == qname.spec_bytes(),
            z@.len() > 0,
            off + z@.len() == q@.len(),
            q@.len() <= usize::MAX,
            off == 0 || q@[off - 1] == DOT,
            forall|k: int| 0 <= k < i ==> q@[off + k] == z@[k],
        decreases z@.len() - i,
    {
        if q[off + i] != z[i] {
            assert(q@.skip(off as int)[i as int] != z@[i as int]);
            return false;
        }
        i += 1;
    }
    assert(q@.skip(off as int) =~= z@);
    true
}

/// Where no byte before `d` is a dot, and `d` is a dot or the end, the first
/// dot is at `d`.
pub proof fn lemma_first_dot(s: Seq<u8>, d: int)
    requires
        0 <= d <= s.len(),
        forall|k: int| 0 <= k < d ==> s[k] != DOT,
        d == s.len() || s[d] == DOT,
    ensures
        first_dot(s) == d,
    decreases d,
{
    if d > 0 {
        lemma_first_dot(s.drop_first(), d - 1);
    }
}

/// The first dot lies within the name or at its end, and no byte before it
/// is a dot.
pub proof fn lemma_first_dot_bounds(s: Seq<u8>)
    ensures
        0 <= first_dot(s) <= s.len(),
        forall|k: int| 0 <= k < first_dot(s) ==> s[k] != DOT,
        first_dot(s) < s.len() ==> s[first_dot(s)] == DOT,
    decreases s.len(),
{
    if s.len() == 0 || s[0] == DOT {
    } else {
        lemma_first_dot_bounds(s.drop_first());
        assert forall|k: int| 0 <= k < first_dot(s) implies s[k] != DOT by {
            if k > 0 {
                assert(s[k] == s.drop_first()[k - 1]);
            }
        }
    }
}

/// The wire form of a name, label by label: the first label behind its
/// length, then the wire form of what follows its dot, or the closing zero.
pub proof fn lemma_name_attempt_unfold(s: Seq<u8>)
    ensures
        name_attempt(s) == (if first_dot(s) > MAX_LABEL {
            Attempt { bytes: Seq::empty(), complete: false }
        } else if first_dot(s) < s.len() {
            Attempt::plain(seq![first_dot(s) as u8] + s.take(first_dot(s))).followed_by(
                name_attempt(s.skip(first_dot(s) + 1)),
            )
        } else {
            Attempt::plain(seq![first_dot(s) as u8] + s + seq![0u8])
        }),
{
    lemma_first_dot_bounds(s);
    let d = first_dot(s);
    let labels = split_labels(s);
    if d < s.len() {
        assert(labels[0] == s.take(d));
        assert(labels.drop_first() =~= split_labels(s.skip(d + 1)));
    } else {
        assert(labels[0] == s);
        assert(labels.drop_first() =~= Seq::<Seq<u8>>::empty());
        assert(s.take(d) =~= s);
        if d <= MAX_LABEL {
            assert(labels_attempt(labels.drop_first()) == Attempt::plain(seq![0u8]));
            assert((seq![d as u8] + s) + seq![0u8] =~= seq![d as u8] + s + seq![0u8]);
        }
    }
}

} // verus!
