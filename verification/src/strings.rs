//! Content sanitizer: classifies a byte stream into printable units and
//! binary noise under bounded lookahead, and reduces it to a grep-friendly
//! stream of printable runs separated by NUL markers.

use vstd::prelude::*;

verus! {

/// Whether a byte is binary noise: below 0x20 and not tab, LF or CR.
pub open spec fn spec_is_binary(b: u8) -> bool {
    b < 0x20 && b != 0x09 && b != 0x0a && b != 0x0d
}

/// Whether a byte has the UTF-8 continuation pattern `10xxxxxx`.
pub open spec fn spec_follower(b: u8) -> bool {
    b & 0xc0 == 0x80
}

/// Whether a byte has the UTF-8 two-byte lead pattern `110xxxxx`.
pub open spec fn spec_lead2(b: u8) -> bool {
    b & 0xe0 == 0xc0
}

/// Whether a byte has the UTF-8 three-byte lead pattern `1110xxxx`.
pub open spec fn spec_lead3(b: u8) -> bool {
    b & 0xf0 == 0xe0
}

/// Whether a byte has the UTF-8 four-byte lead pattern `11110xxx`.
pub open spec fn spec_lead4(b: u8) -> bool {
    b & 0xf8 == 0xf0
}

/// The bytes of one printable unit: a single ASCII byte or a complete
/// multi-byte UTF-8 sequence of two, three or four bytes.
#[derive(Copy, Clone, Debug, PartialEq, Eq, Structural)]
pub enum ShortArray {
    One(u8),
    Two(u8, u8),
    Three(u8, u8, u8),
    Four(u8, u8, u8, u8),
}

/// One classified unit of input: a binary noise byte, a printable unit, or
/// `Short(k)`, meaning the input ends inside a candidate multi-byte sequence
/// and `k` more bytes are needed to decide it.
#[derive(Copy, Clone, Debug, PartialEq, Eq, Structural)]
pub enum Char {
    Binary(u8),
    Printable(ShortArray),
    Short(usize),
}

/// Per-byte classification, with multi-byte lead patterns reported by their
/// expected sequence length.
#[derive(Copy, Clone, Debug, PartialEq, Eq, Structural)]
pub enum Classification {
    Binary,
    Ascii,
    Utf2,
    Utf3,
    Utf4,
    UtfFollower,
}

/// The byte sequence a printable unit stands for.
pub open spec fn arr_seq(arr: ShortArray) -> Seq<u8> {
    match arr {
        ShortArray::One(a) => seq![a],
        ShortArray::Two(a, b) => seq![a, b],
        ShortArray::Three(a, b, c) => seq![a, b, c],
        ShortArray::Four(a, b, c, d) => seq![a, b, c, d],
    }
}

/// How many input bytes a decided unit consumed; for `Short(k)` it is the
/// stored count of missing bytes.
pub open spec fn char_len(c: Char) -> nat {
    match c {
        Char::Binary(_) => 1,
        Char::Printable(arr) => arr_seq(arr).len(),
        Char::Short(len) => len as nat,
    }
}

/// Classification of the unit that starts at the head of `s`, under the
/// minimum necessary lookahead:
/// - a binary-noise byte, or a printable ASCII byte, decides on its own;
/// - a multi-byte lead decides once all its continuation bytes are present,
///   or as soon as one of the available bytes breaks the `10xxxxxx` pattern,
///   in which case the lead alone is reclassified as binary;
/// - a stray continuation byte or an invalid lead (0xf8..) is binary;
/// - `Short(k)` when the sequence cannot be decided yet: `k` bytes missing.
pub open spec fn char_of(s: Seq<u8>) -> Char {
    if s.len() == 0 {
        Char::Short(1)
    } else {
        let b = s[0];
        if spec_is_binary(b) {
            Char::Binary(b)
        } else if b < 0x7f {
            Char::Printable(ShortArray::One(b))
        } else if spec_lead2(b) {
            if s.len() < 2 {
                Char::Short(1)
            } else if spec_follower(s[1]) {
                Char::Printable(ShortArray::Two(b, s[1]))
            } else {
                Char::Binary(b)
            }
        } else if spec_lead3(b) {
            if s.len() >= 2 && !spec_follower(s[1]) {
                Char::Binary(b)
            } else if s.len() >= 3 && !spec_follower(s[2]) {
                Char::Binary(b)
            } else if s.len() >= 3 {
                Char::Printable(ShortArray::Three(b, s[1], s[2]))
            } else {
                Char::Short((3 - s.len()) as usize)
            }
        } else if spec_lead4(b) {
            if s.len() >= 2 && !spec_follower(s[1]) {
                Char::Binary(b)
            } else if s.len() >= 3 && !spec_follower(s[2]) {
                Char::Binary(b)
            } else if s.len() >= 4 && !spec_follower(s[3]) {
                Char::Binary(b)
            } else if s.len() >= 4 {
                Char::Printable(ShortArray::Four(b, s[1], s[2], s[3]))
            } else {
                Char::Short((4 - s.len()) as usize)
            }
        } else {
            Char::Binary(b)
        }
    }
}

/// Spec mirror of `classify`.
pub open spec fn spec_classify(b: u8) -> Classification {
    if spec_is_binary(b) {
        Classification::Binary
    } else if b < 0x7f {
        Classification::Ascii
    } else if spec_follower(b) {
        Classification::UtfFollower
    } else if spec_lead2(b) {
        Classification::Utf2
    } else if spec_lead3(b) {
        Classification::Utf3
    } else if spec_lead4(b) {
        Classification::Utf4
    } else {
        Classification::Binary
    }
}

impl Char {
    /// Number of input bytes this unit accounts for.
    pub fn len(&self) -> (n: usize)
        ensures
            n == char_len(*self),
    {
        match *self {
            Char::Binary(_) => 1,
            Char::Printable(arr) => arr.len(),
            Char::Short(len) => len,
        }
    }
}

impl ShortArray {
    /// Number of bytes in the unit: one to four.
    pub fn len(&self) -> (n: usize)
        ensures
            n == arr_seq(*self).len(),
    {
        match self {
            ShortArray::One(..) => 1,
            ShortArray::Two(..) => 2,
            ShortArray::Three(..) => 3,
            ShortArray::Four(..) => 4,
        }
    }

    /// Appends the unit's bytes to `v`, in order.
    pub fn push_to(&self, v: &mut Vec<u8>)
        ensures
            final(v)@ == old(v)@ + arr_seq(*self),
    {
        match *self {
            ShortArray::One(a) => v.push(a),
            ShortArray::Two(a, b) => {
                v.push(a);
                v.push(b);
            },
            ShortArray::Three(a, b, c) => {
                v.push(a);
                v.push(b);
                v.push(c);
            },
            ShortArray::Four(a, b, c, d) => {
                v.push(a);
                v.push(b);
                v.push(c);
                v.push(d);
            },
        }
        proof {
            assert(v@ =~= old(v)@ + arr_seq(*self));
        }
    }
}

/// True exactly when the byte has the UTF-8 continuation pattern `10xxxxxx`.
#[inline]
pub fn follower(byte: u8) -> (r: bool)
    ensures
        r == spec_follower(byte),
{
    byte & 0xc0 == 0x80
}

/// Classifies a single byte: binary noise, printable ASCII, a multi-byte
/// lead (by expected length), or a continuation byte.
pub fn classify(byte: u8) -> (r: Classification)
    ensures
        r == spec_classify(byte),
{
    if byte < 0x20 && 0x09 != byte && 0x0a != byte && 0x0d != byte {
        return Classification::Binary;
    }
    if byte < 0x7f {
        return Classification::Ascii;
    }
    if byte & 0xc0 == 0x80 {
        return Classification::UtfFollower;
    }
    if byte & 0xe0 == 0xc0 {
        return Classification::Utf2;
    }
    if byte & 0xf0 == 0xe0 {
        return Classification::Utf3;
    }
    if byte & 0xf8 == 0xf0 {
        return Classification::Utf4;
    }
    Classification::Binary
}

/// Classifies the unit at the head of `bytes`, looking no further than the
/// four bytes a longest UTF-8 sequence could need.
pub fn get_char(bytes: &[u8]) -> (c: Char)
    ensures
        c == char_of(bytes@),
{
    if bytes.len() == 0 {
        return Char::Short(1);
    }

    let byte = bytes[0];
    if byte < 0x20 && 0x09 != byte && 0x0a != byte && 0x0d != byte {
        return Char::Binary(byte);
    }

    if byte < 0x7f {
        return Char::Printable(ShortArray::One(byte));
    }

    if byte & 0xe0 == 0xc0 {
        if bytes.len() < 2 {
            return Char::Short(1);
        }
        if follower(bytes[1]) {
            return Char::Printable(ShortArray::Two(bytes[0], bytes[1]));
        }
        return Char::Binary(byte);
    }

    if byte & 0xf0 == 0xe0 {
        if bytes.len() >= 2 && !follower(bytes[1]) {
            return Char::Binary(byte);
        }
        if bytes.len() >= 3 && !follower(bytes[2]) {
            return Char::Binary(byte);
        }
        if bytes.len() >= 3 {
            return Char::Printable(ShortArray::Three(bytes[0], bytes[1], bytes[2]));
        }
        return Char::Short(3 - bytes.len());
    }

    if byte & 0xf8 == 0xf0 {
        if bytes.len() >= 2 && !follower(bytes[1]) {
            return Char::Binary(byte);
        }
        if bytes.len() >= 3 && !follower(bytes[2]) {
            return Char::Binary(byte);
        }
        if bytes.len() >= 4 && !follower(bytes[3]) {
            return Char::Binary(byte);
        }
        if bytes.len() >= 4 {
            return Char::Printable(
                ShortArray::Four(bytes[0], bytes[1], bytes[2], bytes[3]),
            );
        }
        return Char::Short(4 - bytes.len());
    }

    Char::Binary(byte)
}

/// Run-state of the sanitizer: the lookahead bytes of an undecided candidate
/// multi-byte sequence, the candidate printable run being accumulated, and
/// the count of tolerated binary bytes at the end of that run.
#[verifier::ext_equal]
pub struct RunState {
    pub pending: Seq<u8>,
    pub buf: Seq<u8>,
    pub bins: nat,
}

/// Bounds every reachable run-state keeps: at most two tolerated binary
/// bytes, all of them inside the run buffer, and a run buffer the size-bound
/// flush has kept at 255 bytes or fewer.
pub open spec fn run_ok(c: RunState) -> bool {
    c.bins <= 2 && c.bins <= c.buf.len() && c.buf.len() <= 255
}

/// The empty run-state the sanitizer starts from.
pub open spec fn init_state() -> RunState {
    RunState { pending: Seq::empty(), buf: Seq::empty(), bins: 0 }
}

/// Size-bound flush, buffer part: a run buffer that exceeds 255 bytes keeps
/// only what follows its first 250 bytes.
pub open spec fn force_buf(buf: Seq<u8>) -> Seq<u8> {
    if buf.len() > 255 {
        buf.skip(250)
    } else {
        buf
    }
}

/// Size-bound flush, output part: the first 250 bytes go to the output, with
/// no NUL marker, when the run buffer exceeds 255 bytes.
pub open spec fn force_out(buf: Seq<u8>) -> Seq<u8> {
    if buf.len() > 255 {
        buf.take(250)
    } else {
        Seq::empty()
    }
}

/// The run buffer with its trailing tolerated binary bytes trimmed off.
pub open spec fn trim_bins(buf: Seq<u8>, bins: nat) -> Seq<u8> {
    if bins <= buf.len() {
        buf.take(buf.len() - bins)
    } else {
        Seq::empty()
    }
}

/// State after consuming one binary byte from the head of the lookahead:
/// tolerated inline while fewer than three are consecutive; the third clears
/// the run buffer after trimming the tolerated bytes back off.
pub open spec fn bin_state(c: RunState, b: u8) -> RunState {
    let pending = c.pending.skip(1);
    if c.bins < 2 {
        RunState { pending, buf: force_buf(c.buf.push(b)), bins: c.bins + 1 }
    } else {
        RunState { pending, buf: Seq::empty(), bins: 0 }
    }
}

/// Output produced by consuming one binary byte: nothing while tolerated;
/// on the third consecutive binary byte the trimmed run is flushed followed
/// by a NUL separator if it is longer than three bytes, else discarded.
pub open spec fn bin_out(c: RunState, b: u8) -> Seq<u8> {
    if c.bins < 2 {
        force_out(c.buf.push(b))
    } else {
        let trimmed = trim_bins(c.buf, c.bins);
        if trimmed.len() > 3 {
            trimmed.push(0u8)
        } else {
            Seq::empty()
        }
    }
}

/// State after consuming one printable unit from the head of the lookahead:
/// a run that so far held only tolerated binary bytes is cleared first, the
/// unit's bytes are appended, and the tolerated-binary counter resets.
pub open spec fn pr_state(c: RunState, arr: ShortArray) -> RunState {
    let pending = c.pending.skip(arr_seq(arr).len() as int);
    let base = if c.bins == c.buf.len() {
        Seq::<u8>::empty()
    } else {
        c.buf
    };
    RunState { pending, buf: force_buf(base + arr_seq(arr)), bins: 0 }
}

/// Output produced by consuming one printable unit: only what the
/// size-bound flush forces out.
pub open spec fn pr_out(c: RunState, arr: ShortArray) -> Seq<u8> {
    let base = if c.bins == c.buf.len() {
        Seq::<u8>::empty()
    } else {
        c.buf
    };
    force_out(base + arr_seq(arr))
}

/// Consumes decided units from the head of the lookahead until what remains
/// is an undecided (incomplete) candidate sequence: the state part.
pub open spec fn resolve_state(c: RunState) -> RunState
    decreases c.pending.len(),
{
    match char_of(c.pending) {
        Char::Short(_) => c,
        Char::Binary(b) => resolve_state(bin_state(c, b)),
        Char::Printable(arr) => resolve_state(pr_state(c, arr)),
    }
}

/// Consumes decided units from the head of the lookahead until what remains
/// is an undecided candidate sequence: the bytes emitted while doing so.
pub open spec fn resolve_out(c: RunState) -> Seq<u8>
    decreases c.pending.len(),
{
    match char_of(c.pending) {
        Char::Short(_) => Seq::empty(),
        Char::Binary(b) => bin_out(c, b) + resolve_out(bin_state(c, b)),
        Char::Printable(arr) => pr_out(c, arr) + resolve_out(pr_state(c, arr)),
    }
}

/// One input byte enters the lookahead, then every unit it completes is
/// consumed: the state part.
pub open spec fn feed_byte_state(c: RunState, b: u8) -> RunState {
    resolve_state(RunState { pending: c.pending.push(b), buf: c.buf, bins: c.bins })
}

/// One input byte enters the lookahead, then every unit it completes is
/// consumed: the bytes emitted.
pub open spec fn feed_byte_out(c: RunState, b: u8) -> Seq<u8> {
    resolve_out(RunState { pending: c.pending.push(b), buf: c.buf, bins: c.bins })
}

/// Feeding a whole byte sequence, one byte at a time: the state part.
pub open spec fn feed_state(c: RunState, s: Seq<u8>) -> RunState
    decreases s.len(),
{
    if s.len() == 0 {
        c
    } else {
        feed_state(feed_byte_state(c, s[0]), s.skip(1))
    }
}

/// Feeding a whole byte sequence, one byte at a time: the bytes emitted.
pub open spec fn feed_out(c: RunState, s: Seq<u8>) -> Seq<u8>
    decreases s.len(),
{
    if s.len() == 0 {
        Seq::empty()
    } else {
        feed_byte_out(c, s[0]) + feed_out(feed_byte_state(c, s[0]), s.skip(1))
    }
}

/// The sanitized form of a complete input: everything emitted while feeding
/// it, then the remaining run buffer flushed as-is (no NUL), then any
/// undecided trailing lookahead bytes verbatim.
pub open spec fn sanitize_spec(s: Seq<u8>) -> Seq<u8> {
    let c = feed_state(init_state(), s);
    feed_out(init_state(), s) + c.buf + c.pending
}

/// Feeding one more byte after a sequence is the same as feeding the
/// sequence and then that byte.
pub proof fn lemma_feed_snoc(c: RunState, s: Seq<u8>, b: u8)
    ensures
        feed_state(c, s.push(b)) == feed_byte_state(feed_state(c, s), b),
        feed_out(c, s.push(b)) == feed_out(c, s) + feed_byte_out(feed_state(c, s), b),
    decreases s.len(),
{
    let e = Seq::<u8>::empty();
    let sb = s.push(b);
    if s.len() == 0 {
        assert(sb[0] == b);
        assert(sb.skip(1) =~= e);
        assert(feed_state(c, s) == c);
        assert(feed_out(c, s) == e);
        let c1 = feed_byte_state(c, b);
        assert(feed_state(c1, e) == c1);
        assert(feed_out(c1, e) == e);
        assert(feed_state(c, sb) == feed_state(c1, e));
        assert(feed_out(c, sb) == feed_byte_out(c, b) + feed_out(c1, e));
        assert(feed_out(c, sb) =~= feed_out(c, s) + feed_byte_out(feed_state(c, s), b));
    } else {
        assert(sb[0] == s[0]);
        assert(sb.skip(1) =~= s.skip(1).push(b));
        let c1 = feed_byte_state(c, s[0]);
        lemma_feed_snoc(c1, s.skip(1), b);
        assert(feed_state(c, sb) == feed_state(c1, sb.skip(1)));
        assert(feed_out(c, sb) == feed_byte_out(c, s[0]) + feed_out(c1, sb.skip(1)));
        assert(feed_state(c, s) == feed_state(c1, s.skip(1)));
        assert(feed_out(c, s) == feed_byte_out(c, s[0]) + feed_out(c1, s.skip(1)));
        assert(feed_out(c, sb) =~= feed_out(c, s) + feed_byte_out(feed_state(c, s), b));
    }
}

/// Chunk boundaries do not matter: feeding `s` then `t` leaves the machine
/// in the state of feeding `s + t` at once, and emits the same bytes.
pub proof fn lemma_feed_concat(c: RunState, s: Seq<u8>, t: Seq<u8>)
    ensures
        feed_state(c, s + t) == feed_state(feed_state(c, s), t),
        feed_out(c, s + t) == feed_out(c, s) + feed_out(feed_state(c, s), t),
    decreases s.len(),
{
    if s.len() == 0 {
        assert(s + t =~= t);
        assert(feed_state(c, s) == c);
        assert(feed_out(c, s) == Seq::<u8>::empty());
        assert(feed_out(c, s + t) =~= feed_out(c, s) + feed_out(feed_state(c, s), t));
    } else {
        let st = s + t;
        assert(st[0] == s[0]);
        assert(st.skip(1) =~= s.skip(1) + t);
        let c1 = feed_byte_state(c, s[0]);
        lemma_feed_concat(c1, s.skip(1), t);
        assert(feed_state(c, st) == feed_state(c1, st.skip(1)));
        assert(feed_out(c, st) == feed_byte_out(c, s[0]) + feed_out(c1, st.skip(1)));
        assert(feed_state(c, s) == feed_state(c1, s.skip(1)));
        assert(feed_out(c, s) == feed_byte_out(c, s[0]) + feed_out(c1, s.skip(1)));
        assert(feed_out(c, st) =~= feed_out(c, s) + feed_out(feed_state(c, s), t));
    }
}

/// Streaming sanitizer: accepts input in arbitrary chunks and appends the
/// reduced stream to a caller-supplied output buffer, holding at most the
/// bounded lookahead and the capped run buffer in memory.
pub struct StringBuf {
    pending: Vec<u8>,
    buf: Vec<u8>,
    bins: usize,
    fed: Ghost<Seq<u8>>,
}

impl StringBuf {
    /// The run-state this sanitizer currently holds.
    pub closed spec fn state(self) -> RunState {
        RunState { pending: self.pending@, buf: self.buf@, bins: self.bins as nat }
    }

    /// Every byte fed so far, over all `accept` calls.
    pub closed spec fn fed_bytes(self) -> Seq<u8> {
        self.fed@
    }

    /// The sanitizer's state is exactly the machine's state after the bytes
    /// fed so far, within the bounds every reachable state keeps.
    pub closed spec fn wf(self) -> bool {
        &&& self.state() == feed_state(init_state(), self.fed@)
        &&& run_ok(self.state())
        &&& char_of(self.pending@) is Short
    }

    /// A fresh sanitizer: nothing fed, nothing pending.
    pub fn new() -> (s: StringBuf)
        ensures
            s.wf(),
            s.fed_bytes() == Seq::<u8>::empty(),
            s.state() == init_state(),
    {
        let s = StringBuf { pending: Vec::new(), buf: Vec::new(), bins: 0, fed: Ghost(Seq::empty()) };
        proof {
            assert(s.state() == feed_state(init_state(), s.fed@));
        }
        s
    }

    /// Size-bound flush: when the run buffer exceeds 255 bytes, its first
    /// 250 bytes move to the output and the remainder keeps accumulating.
    fn force_flush(&mut self, out: &mut Vec<u8>)
        ensures
            final(self).buf@ == force_buf(old(self).buf@),
            final(out)@ == old(out)@ + force_out(old(self).buf@),
            final(self).pending@ == old(self).pending@,
            final(self).bins == old(self).bins,
            final(self).fed == old(self).fed,
    {
        if self.buf.len() > 255 {
            let tail = self.buf.split_off(250);
            out.append(&mut self.buf);
            self.buf = tail;
        } else {
            proof {
                assert(final(out)@ =~= old(out)@ + force_out(old(self).buf@));
            }
        }
    }

    /// Consumes the binary byte at the head of the lookahead and applies the
    /// noise-tolerance policy to the run buffer.
    fn take_binary(&mut self, b: u8, out: &mut Vec<u8>)
        requires
            char_of(old(self).pending@) == Char::Binary(b),
            run_ok(old(self).state()),
        ensures
            final(self).state() == bin_state(old(self).state(), b),
            final(out)@ == old(out)@ + bin_out(old(self).state(), b),
            final(self).fed == old(self).fed,
            run_ok(final(self).state()),
    {
        proof {
            assert(old(self).pending@.len() >= 1);
        }
        let _ = self.pending.remove(0);
        proof {
            assert(self.pending@ =~= old(self).pending@.skip(1));
        }
        if self.bins < 2 {
            self.buf.push(b);
            self.bins = self.bins + 1;
            self.force_flush(out);
        } else {
            let new_len = self.buf.len() - self.bins;
            self.buf.truncate(new_len);
            proof {
                assert(self.buf@ =~= trim_bins(old(self).buf@, old(self).bins as nat));
            }
            if self.buf.len() > 3 {
                let ghost trimmed = self.buf@;
                out.append(&mut self.buf);
                out.push(0u8);
                proof {
                    assert(out@ =~= old(out)@ + trimmed.push(0u8));
                }
            } else {
                self.buf.clear();
                proof {
                    assert(out@ =~= old(out)@ + bin_out(old(self).state(), b));
                }
            }
            self.bins = 0;
        }
    }

    /// Consumes the printable unit at the head of the lookahead and appends
    /// its bytes to the run buffer.
    fn take_printable(&mut self, arr: ShortArray, out: &mut Vec<u8>)
        requires
            char_of(old(self).pending@) == Char::Printable(arr),
            run_ok(old(self).state()),
        ensures
            final(self).state() == pr_state(old(self).state(), arr),
            final(out)@ == old(out)@ + pr_out(old(self).state(), arr),
            final(self).fed == old(self).fed,
            run_ok(final(self).state()),
    {
        let l = arr.len();
        proof {
            assert(arr_seq(arr) == old(self).pending@.take(l as int));
            assert(l <= old(self).pending@.len());
        }
        let mut k: usize = 0;
        while k < l
            invariant
                k <= l,
                l <= old(self).pending@.len(),
                self.pending@ == old(self).pending@.skip(k as int),
                self.buf == old(self).buf,
                self.bins == old(self).bins,
                self.fed == old(self).fed,
            decreases l - k,
        {
            let _ = self.pending.remove(0);
            k = k + 1;
            proof {
                assert(self.pending@ =~= old(self).pending@.skip(k as int));
            }
        }
        if self.bins == self.buf.len() {
            self.buf.clear();
        }
        arr.push_to(&mut self.buf);
        self.bins = 0;
        self.force_flush(out);
    }

    /// Consumes decided units from the head of the lookahead until what
    /// remains is an undecided candidate sequence.
    fn resolve(&mut self, out: &mut Vec<u8>)
        requires
            run_ok(old(self).state()),
        ensures
            final(self).state() == resolve_state(old(self).state()),
            final(out)@ == old(out)@ + resolve_out(old(self).state()),
            final(self).fed == old(self).fed,
            run_ok(final(self).state()),
            char_of(final(self).pending@) is Short,
    {
        loop
            invariant
                run_ok(self.state()),
                self.fed == old(self).fed,
                resolve_state(self.state()) == resolve_state(old(self).state()),
                out@ + resolve_out(self.state()) == old(out)@ + resolve_out(old(self).state()),
            ensures
                run_ok(self.state()),
                self.fed == old(self).fed,
                char_of(self.pending@) is Short,
                self.state() == resolve_state(old(self).state()),
                out@ == old(out)@ + resolve_out(old(self).state()),
            decreases self.pending@.len(),
        {
            let c = get_char(self.pending.as_slice());
            match c {
                Char::Short(_) => {
                    proof {
                        assert(resolve_out(self.state()) =~= Seq::<u8>::empty());
                        assert(out@ =~= out@ + resolve_out(self.state()));
                        assert(resolve_state(self.state()) == self.state());
                    }
                    break;
                },
                Char::Binary(b) => {
                    let ghost pre = self.state();
                    let ghost out_pre = out@;
                    self.take_binary(b, out);
                    proof {
                        assert(out@ + resolve_out(self.state()) =~= out_pre + resolve_out(pre));
                    }
                },
                Char::Printable(arr) => {
                    let ghost pre = self.state();
                    let ghost out_pre = out@;
                    self.take_printable(arr, out);
                    proof {
                        assert(out@ + resolve_out(self.state()) =~= out_pre + resolve_out(pre));
                    }
                },
            }
        }
    }

    /// Feeds one chunk of input. Output produced by this chunk is appended
    /// to `out`; it depends only on the machine state and the bytes, never
    /// on where the chunk boundaries fall.
    pub fn accept(&mut self, chunk: &[u8], out: &mut Vec<u8>)
        requires
            old(self).wf(),
        ensures
            final(self).wf(),
            final(self).fed_bytes() == old(self).fed_bytes() + chunk@,
            final(self).state() == feed_state(old(self).state(), chunk@),
            final(out)@ == old(out)@ + feed_out(old(self).state(), chunk@),
    {
        let ghost c0 = self.state();
        let ghost fed0 = self.fed@;
        let ghost out0 = out@;
        proof {
            assert(chunk@.take(0) =~= Seq::<u8>::empty());
            assert(feed_state(c0, Seq::<u8>::empty()) == c0);
            assert(feed_out(c0, Seq::<u8>::empty()) == Seq::<u8>::empty());
            assert(self.fed@ =~= fed0 + chunk@.take(0));
            assert(out@ =~= out0 + feed_out(c0, chunk@.take(0)));
        }
        let mut i: usize = 0;
        while i < chunk.len()
            invariant
                i <= chunk@.len(),
                self.fed@ == fed0 + chunk@.take(i as int),
                self.state() == feed_state(c0, chunk@.take(i as int)),
                out@ == out0 + feed_out(c0, chunk@.take(i as int)),
                feed_state(init_state(), fed0) == c0,
                run_ok(self.state()),
                char_of(self.pending@) is Short,
            decreases chunk@.len() - i,
        {
            let b = chunk[i];
            let ghost c_pre = self.state();
            let ghost out_pre = out@;
            self.pending.push(b);
            self.fed = Ghost(self.fed@ + seq![b]);
            self.resolve(out);
            proof {
                assert(chunk@.take(i + 1) =~= chunk@.take(i as int).push(b));
                lemma_feed_snoc(c0, chunk@.take(i as int), b);
                assert(self.state() == feed_byte_state(c_pre, b));
                assert(out@ == out_pre + feed_byte_out(c_pre, b));
                assert(out@ =~= out0 + feed_out(c0, chunk@.take(i + 1)));
                assert(self.fed@ =~= fed0 + chunk@.take(i + 1));
            }
            i = i + 1;
        }
        proof {
            assert(chunk@.take(chunk@.len() as int) =~= chunk@);
            lemma_feed_concat(init_state(), fed0, chunk@);
        }
    }

    /// Ends the input: flushes the remaining run buffer as-is (no NUL) and
    /// then any undecided trailing lookahead bytes verbatim.
    pub fn finish(self, out: &mut Vec<u8>)
        ensures
            final(out)@ == old(out)@ + self.state().buf + self.state().pending,
    {
        let StringBuf { pending, buf, bins, fed } = self;
        let mut buf = buf;
        let mut pending = pending;
        out.append(&mut buf);
        out.append(&mut pending);
    }
}

/// The decided units at the head of `s`, in order, up to the first position
/// where the remaining bytes form an undecided candidate sequence.
pub open spec fn chars_of(s: Seq<u8>) -> Seq<Char>
    decreases s.len(),
{
    match char_of(s) {
        Char::Short(_) => Seq::empty(),
        c => seq![c] + chars_of(s.skip(char_len(c) as int)),
    }
}

/// Tokenizes a complete input into its decided units; an undecided trailing
/// candidate sequence, if any, yields no unit.
pub fn find_chars(data: &[u8]) -> (chars: Vec<Char>)
    ensures
        chars@ == chars_of(data@),
{
    let mut chars: Vec<Char> = Vec::new();
    let mut i: usize = 0;
    proof {
        assert(data@.skip(0) =~= data@);
    }
    while i < data.len()
        invariant
            i <= data@.len(),
            chars_of(data@) == chars@ + chars_of(data@.skip(i as int)),
        ensures
            chars_of(data@) == chars@ + chars_of(data@.skip(i as int)),
            i == data@.len() || char_of(data@.skip(i as int)) is Short,
        decreases data@.len() - i,
    {
        let rest = vstd::slice::slice_subrange(data, i, data.len());
        let c = get_char(rest);
        match c {
            Char::Short(_) => {
                break;
            },
            other => {
                let l = other.len();
                proof {
                    assert(char_len(char_of(rest@)) >= 1);
                    assert(char_len(char_of(rest@)) <= rest@.len()) by {
                        if char_of(rest@) is Printable {
                        }
                    };
                    assert(chars_of(rest@) == seq![char_of(rest@)] + chars_of(
                        rest@.skip(char_len(char_of(rest@)) as int),
                    ));
                    assert(data@.skip(i as int).skip(l as int) =~= data@.skip(i + l));
                }
                chars.push(other);
                proof {
                    assert(chars_of(data@) =~= chars@ + chars_of(data@.skip(i + l)));
                }
                i = i + l;
            },
        }
    }
    proof {
        if i == data@.len() {
            assert(data@.skip(i as int) =~= Seq::<u8>::empty());
        }
        assert(chars_of(data@.skip(i as int)) == Seq::<Char>::empty());
        assert(chars_of(data@) =~= chars@);
    }
    chars
}

/// Sanitizes a complete byte stream in one call: printable runs are kept,
/// isolated binary noise is tolerated inline, longer noise ends the run,
/// which is flushed with a NUL separator if longer than three bytes.
pub fn strings(data: &[u8]) -> (out: Vec<u8>)
    ensures
        out@ == sanitize_spec(data@),
{
    let sb = StringBuf::new();
    let mut sb = sb;
    let mut out: Vec<u8> = Vec::new();
    sb.accept(data, &mut out);
    sb.finish(&mut out);
    proof {
        assert(out@ =~= sanitize_spec(data@));
    }
    out
}

/// Sanitizes a complete byte stream by feeding the streaming sanitizer one
/// byte at a time; the result is the same as sanitizing it in one chunk.
pub fn satrings(data: &[u8]) -> (out: Vec<u8>)
    ensures
        out@ == sanitize_spec(data@),
{
    let mut sb = StringBuf::new();
    let mut out: Vec<u8> = Vec::new();
    let mut i: usize = 0;
    while i < data.len()
        invariant
            i <= data@.len(),
            sb.wf(),
            sb.fed_bytes() == data@.take(i as int),
            out@ == feed_out(init_state(), data@.take(i as int)),
            sb.state() == feed_state(init_state(), data@.take(i as int)),
        decreases data@.len() - i,
    {
        let one = vstd::slice::slice_subrange(data, i, i + 1);
        let ghost c_pre = sb.state();
        sb.accept(one, &mut out);
        proof {
            assert(one@ =~= seq![data@[i as int]]);
            assert(data@.take(i + 1) =~= data@.take(i as int) + one@);
            lemma_feed_concat(init_state(), data@.take(i as int), one@);
        }
        i = i + 1;
    }
    proof {
        assert(data@.take(data@.len() as int) =~= data@);
    }
    sb.finish(&mut out);
    proof {
        assert(out@ =~= sanitize_spec(data@));
    }
    out
}

/// The size-bound flush moves bytes without dropping or reordering any: the
/// flushed part followed by the kept part is the whole buffer.
pub proof fn lemma_force_id(x: Seq<u8>)
    ensures
        force_out(x) + force_buf(x) == x,
{
    if x.len() > 255 {
        assert(x.take(250) + x.skip(250) =~= x);
    } else {
        assert(Seq::<u8>::empty() + x =~= x);
    }
}

/// One printable ASCII byte fed to a machine with an empty lookahead is
/// consumed at once as a one-byte printable unit.
proof fn lemma_feed_ascii(c: RunState, b: u8)
    requires
        c.pending == Seq::<u8>::empty(),
        !spec_is_binary(b),
        b < 0x7f,
    ensures
        feed_byte_state(c, b) == pr_state(
            RunState { pending: seq![b], buf: c.buf, bins: c.bins },
            ShortArray::One(b),
        ),
        feed_byte_out(c, b) == pr_out(
            RunState { pending: seq![b], buf: c.buf, bins: c.bins },
            ShortArray::One(b),
        ),
{
    let pushed = RunState { pending: c.pending.push(b), buf: c.buf, bins: c.bins };
    assert(pushed =~= RunState { pending: seq![b], buf: c.buf, bins: c.bins });
    assert(char_of(seq![b]) == Char::Printable(ShortArray::One(b)));
    let c1 = pr_state(pushed, ShortArray::One(b));
    assert(c1.pending =~= Seq::<u8>::empty());
    assert(char_of(c1.pending) is Short);
    assert(resolve_state(c1) == c1);
    assert(resolve_out(c1) == Seq::<u8>::empty());
    assert(resolve_state(pushed) == resolve_state(c1));
    assert(resolve_out(pushed) == pr_out(pushed, ShortArray::One(b)) + resolve_out(c1));
    assert(resolve_out(pushed) =~= pr_out(pushed, ShortArray::One(b)));
}

/// One binary byte fed to a machine with an empty lookahead is consumed at
/// once as a binary unit.
proof fn lemma_feed_binary(c: RunState, b: u8)
    requires
        c.pending == Seq::<u8>::empty(),
        spec_is_binary(b),
    ensures
        feed_byte_state(c, b) == bin_state(
            RunState { pending: seq![b], buf: c.buf, bins: c.bins },
            b,
        ),
        feed_byte_out(c, b) == bin_out(
            RunState { pending: seq![b], buf: c.buf, bins: c.bins },
            b,
        ),
{
    let pushed = RunState { pending: c.pending.push(b), buf: c.buf, bins: c.bins };
    assert(pushed =~= RunState { pending: seq![b], buf: c.buf, bins: c.bins });
    assert(char_of(seq![b]) == Char::Binary(b));
    let c1 = bin_state(pushed, b);
    assert(c1.pending =~= Seq::<u8>::empty());
    assert(char_of(c1.pending) is Short);
    assert(resolve_state(c1) == c1);
    assert(resolve_out(c1) == Seq::<u8>::empty());
    assert(resolve_state(pushed) == resolve_state(c1));
    assert(resolve_out(pushed) == bin_out(pushed, b) + resolve_out(c1));
    assert(resolve_out(pushed) =~= bin_out(pushed, b));
}

/// Whether every byte of `s` is plain text the sanitizer keeps verbatim:
/// printable ASCII, tab, LF or CR.
pub open spec fn all_plain_text(s: Seq<u8>) -> bool {
    forall|i: int| 0 <= i < s.len() ==> (#[trigger] s[i]) < 0x7f && !spec_is_binary(s[i])
}

/// Feeding plain text to a machine with an empty lookahead and no pending
/// tolerated noise only ever appends to the run: everything emitted followed
/// by the final run buffer is the old run buffer followed by the input.
proof fn lemma_plain_text_feed(c: RunState, s: Seq<u8>)
    requires
        all_plain_text(s),
        c.pending == Seq::<u8>::empty(),
        c.bins == 0,
    ensures
        feed_out(c, s) + feed_state(c, s).buf == c.buf + s,
        feed_state(c, s).pending == Seq::<u8>::empty(),
        feed_state(c, s).bins == 0,
        c.buf.len() + s.len() <= 255 ==> feed_out(c, s) == Seq::<u8>::empty() && feed_state(
            c,
            s,
        ).buf == c.buf + s,
    decreases s.len(),
{
    if s.len() == 0 {
        assert(feed_state(c, s) == c);
        assert(feed_out(c, s) == Seq::<u8>::empty());
        assert(feed_out(c, s) + c.buf =~= c.buf + s);
        assert(c.buf =~= c.buf + s);
    } else {
        let b = s[0];
        assert(b < 0x7f && !spec_is_binary(b));
        lemma_feed_ascii(c, b);
        let pushed = RunState { pending: seq![b], buf: c.buf, bins: c.bins };
        let c1 = pr_state(pushed, ShortArray::One(b));
        let o1 = pr_out(pushed, ShortArray::One(b));
        let x = c.buf + seq![b];
        assert(arr_seq(ShortArray::One(b)) =~= seq![b]);
        // with no tolerated noise, clearing applies only to an empty run
        if c.bins == c.buf.len() {
            assert(c.buf =~= Seq::<u8>::empty());
            assert(Seq::<u8>::empty() + arr_seq(ShortArray::One(b)) =~= x);
        } else {
            assert(c.buf + arr_seq(ShortArray::One(b)) =~= x);
        }
        assert(c1.buf == force_buf(x));
        assert(o1 == force_out(x));
        assert(c1.pending =~= Seq::<u8>::empty());
        assert(c1.bins == 0);
        lemma_force_id(x);
        assert(all_plain_text(s.skip(1))) by {
            assert forall|i: int| 0 <= i < s.skip(1).len() implies (#[trigger] s.skip(1)[i])
                < 0x7f && !spec_is_binary(s.skip(1)[i]) by {
                assert(s.skip(1)[i] == s[i + 1]);
            }
        }
        lemma_plain_text_feed(c1, s.skip(1));
        assert(feed_state(c, s) == feed_state(c1, s.skip(1)));
        assert(feed_out(c, s) == o1 + feed_out(c1, s.skip(1)));
        let rest = feed_out(c1, s.skip(1));
        let fbuf = feed_state(c, s).buf;
        assert(rest + fbuf == c1.buf + s.skip(1));
        assert(o1 + (rest + fbuf) =~= (o1 + rest) + fbuf);
        assert(o1 + (c1.buf + s.skip(1)) =~= (o1 + c1.buf) + s.skip(1));
        assert(o1 + c1.buf == x);
        assert(x + s.skip(1) =~= c.buf + s);
        assert(feed_out(c, s) + fbuf =~= c.buf + s);
        if c.buf.len() + s.len() <= 255 {
            assert(x.len() <= 255);
            assert(force_out(x) == Seq::<u8>::empty());
            assert(force_buf(x) == x);
            assert(c1.buf.len() + s.skip(1).len() <= 255);
            assert(feed_out(c, s) =~= Seq::<u8>::empty());
        }
    }
}

/// Pure text passes through unchanged: sanitizing a stream made only of
/// printable ASCII, tab, LF and CR yields exactly the input bytes.
pub proof fn lemma_plain_text_round_trip(s: Seq<u8>)
    requires
        all_plain_text(s),
    ensures
        sanitize_spec(s) == s,
{
    lemma_plain_text_feed(init_state(), s);
    let c = feed_state(init_state(), s);
    assert(feed_out(init_state(), s) + c.buf =~= Seq::<u8>::empty() + s);
    assert(sanitize_spec(s) =~= (feed_out(init_state(), s) + c.buf) + c.pending);
    assert(sanitize_spec(s) =~= s);
}

/// A lead byte whose next byte is not a continuation byte is reclassified
/// as a single binary byte: only the lead is consumed, and scanning resumes
/// at the very next byte.
pub proof fn lemma_invalid_continuation(s: Seq<u8>)
    requires
        s.len() >= 2,
        spec_lead2(s[0]) || spec_lead3(s[0]) || spec_lead4(s[0]),
        !spec_follower(s[1]),
    ensures
        char_of(s) == Char::Binary(s[0]),
        char_len(char_of(s)) == 1,
{
    let b = s[0];
    if spec_lead2(b) {
        assert(!(b < 0x20) && !(b < 0x7f)) by (bit_vector)
            requires
                b & 0xe0 == 0xc0,
        ;
    } else if spec_lead3(b) {
        assert(!(b < 0x20) && !(b < 0x7f) && b & 0xe0 != 0xc0) by (bit_vector)
            requires
                b & 0xf0 == 0xe0,
        ;
    } else {
        assert(!(b < 0x20) && !(b < 0x7f) && b & 0xe0 != 0xc0 && b & 0xf0 != 0xe0)
            by (bit_vector)
            requires
                b & 0xf8 == 0xf0,
        ;
    }
}

/// A run of at most three plain-text bytes cut off by a third consecutive
/// binary byte is discarded whole: nothing of it, and no separator, reaches
/// the output.
pub proof fn lemma_short_run_discarded(t: Seq<u8>, b1: u8, b2: u8, b3: u8)
    requires
        all_plain_text(t),
        t.len() <= 3,
        spec_is_binary(b1),
        spec_is_binary(b2),
        spec_is_binary(b3),
    ensures
        sanitize_spec(t + seq![b1, b2, b3]) == Seq::<u8>::empty(),
{
    let noise = seq![b1, b2, b3];
    lemma_feed_concat(init_state(), t, noise);
    lemma_plain_text_feed(init_state(), t);
    let c0 = feed_state(init_state(), t);
    assert(c0.buf =~= t) by {
        assert(Seq::<u8>::empty() + t =~= t);
    }
    // first binary byte: tolerated inline
    lemma_feed_binary(c0, b1);
    let c1 = feed_byte_state(c0, b1);
    let buf1 = t.push(b1);
    assert(force_buf(c0.buf.push(b1)) == buf1 && force_out(c0.buf.push(b1))
        == Seq::<u8>::empty()) by {
        assert(c0.buf.push(b1) =~= buf1);
    }
    assert(c1 =~= RunState { pending: Seq::<u8>::empty(), buf: buf1, bins: 1 });
    assert(feed_byte_out(c0, b1) == Seq::<u8>::empty());
    // second binary byte: still tolerated
    lemma_feed_binary(c1, b2);
    let c2 = feed_byte_state(c1, b2);
    let buf2 = buf1.push(b2);
    assert(force_buf(c1.buf.push(b2)) == buf2 && force_out(c1.buf.push(b2))
        == Seq::<u8>::empty()) by {
        assert(c1.buf.push(b2) =~= buf2);
    }
    assert(c2 =~= RunState { pending: Seq::<u8>::empty(), buf: buf2, bins: 2 });
    assert(feed_byte_out(c1, b2) == Seq::<u8>::empty());
    // third binary byte: the run is trimmed back to `t` and discarded
    lemma_feed_binary(c2, b3);
    let c3 = feed_byte_state(c2, b3);
    assert(trim_bins(buf2, 2) =~= t);
    assert(c3 =~= RunState {
        pending: Seq::<u8>::empty(),
        buf: Seq::<u8>::empty(),
        bins: 0,
    });
    assert(feed_byte_out(c2, b3) == Seq::<u8>::empty());
    // chain the three steps
    assert(noise[0] == b1);
    assert(noise.skip(1) =~= seq![b2, b3]);
    assert(seq![b2, b3][0] == b2);
    assert(seq![b2, b3].skip(1) =~= seq![b3]);
    assert(seq![b3][0] == b3);
    assert(seq![b3].skip(1) =~= Seq::<u8>::empty());
    assert(feed_state(c3, Seq::<u8>::empty()) == c3);
    assert(feed_out(c3, Seq::<u8>::empty()) == Seq::<u8>::empty());
    assert(feed_state(c2, seq![b3]) == c3);
    assert(feed_out(c2, seq![b3]) =~= Seq::<u8>::empty());
    assert(feed_state(c1, seq![b2, b3]) == c3);
    assert(feed_out(c1, seq![b2, b3]) =~= Seq::<u8>::empty());
    assert(feed_state(c0, noise) == c3);
    assert(feed_out(c0, noise) =~= Seq::<u8>::empty());
    // assemble the whole input
    assert(feed_state(init_state(), t + noise) == c3);
    assert(feed_out(init_state(), t + noise) =~= Seq::<u8>::empty());
    assert(sanitize_spec(t + noise) =~= Seq::<u8>::empty());
}

/// Consuming decided units never grows the machine's total footprint: what
/// a resolution emits plus what stays buffered fits in what was buffered
/// before.
proof fn lemma_resolve_no_longer(c: RunState)
    ensures
        resolve_out(c).len() + resolve_state(c).buf.len() + resolve_state(c).pending.len()
            <= c.buf.len() + c.pending.len(),
    decreases c.pending.len(),
{
    match char_of(c.pending) {
        Char::Short(_) => {},
        Char::Binary(b) => {
            let c1 = bin_state(c, b);
            lemma_resolve_no_longer(c1);
            if c.bins < 2 {
                lemma_force_id(c.buf.push(b));
            }
        },
        Char::Printable(arr) => {
            let c1 = pr_state(c, arr);
            lemma_resolve_no_longer(c1);
            let base = if c.bins == c.buf.len() {
                Seq::<u8>::empty()
            } else {
                c.buf
            };
            lemma_force_id(base + arr_seq(arr));
        },
    }
}

/// Feeding bytes grows the machine's total footprint by at most one byte per
/// byte fed.
proof fn lemma_feed_no_longer(c: RunState, s: Seq<u8>)
    ensures
        feed_out(c, s).len() + feed_state(c, s).buf.len() + feed_state(c, s).pending.len()
            <= c.buf.len() + c.pending.len() + s.len(),
    decreases s.len(),
{
    if s.len() > 0 {
        let pushed = RunState { pending: c.pending.push(s[0]), buf: c.buf, bins: c.bins };
        lemma_resolve_no_longer(pushed);
        lemma_feed_no_longer(feed_byte_state(c, s[0]), s.skip(1));
    }
}

/// Sanitization never grows a stream: dropped noise may shorten it, and a
/// NUL separator only ever stands in for at least three dropped bytes.
pub proof fn lemma_sanitize_no_longer(s: Seq<u8>)
    ensures
        sanitize_spec(s).len() <= s.len(),
{
    lemma_feed_no_longer(init_state(), s);
}

} // verus!
