//! The wire-format codec: protocol values, their byte encoding, and an
//! incremental decoder that parses exactly one frame from a byte slice.

use vstd::prelude::*;

verus! {

/// Carriage return, the first byte of the frame terminator.
pub const CR: u8 = 13;

/// Line feed, the second byte of the frame terminator.
pub const LF: u8 = 10;

/// Marker byte of a status (simple string) frame: `+`.
pub const MARK_SIMPLE: u8 = 43;

/// Marker byte of a bulk string frame: `$`.
pub const MARK_BULK: u8 = 36;

/// Marker byte of an array frame: `*`.
pub const MARK_ARRAY: u8 = 42;

/// Sign byte accepted in front of a length field: `+`.
pub const SIGN_PLUS: u8 = 43;

/// Sign byte rejected in front of a length field: `-` (negative lengths are
/// invalid).
pub const SIGN_MINUS: u8 = 45;

/// Largest declared length or element count the decoder accepts; anything
/// larger is treated as a malformed frame, so a peer cannot demand
/// pathologically large allocations.
pub const LEN_LIMIT: u64 = 536870912;

/// Deepest array nesting the decoder accepts; deeper frames are treated as
/// malformed, so a peer cannot force unbounded recursion.
pub const DEPTH_LIMIT: u32 = 32;

/// Index of the first `CR LF` pair in `s`, if any.
pub open spec fn find_crlf(s: Seq<u8>) -> Option<int>
    decreases s.len(),
{
    if s.len() < 2 {
        None
    } else if s[0] == CR && s[1] == LF {
        Some(0int)
    } else {
        match find_crlf(s.drop_first()) {
            Some(i) => Some(i + 1),
            None => None,
        }
    }
}

/// A `CR LF` pair at `j`, with none before it, is exactly where `find_crlf`
/// points.
pub proof fn lemma_find_crlf_at(s: Seq<u8>, j: int)
    requires
        0 <= j,
        j + 1 < s.len(),
        s[j] == CR,
        s[j + 1] == LF,
        forall|k: int| 0 <= k < j ==> !(#[trigger] s[k] == CR && s[k + 1] == LF),
    ensures
        find_crlf(s) == Some(j),
    decreases s.len(),
{
    if j == 0 {
    } else {
        let t = s.drop_first();
        assert(forall|k: int| 0 <= k < j - 1 ==> s[k + 1] == #[trigger] t[k] && s[k + 2] == t[k + 1]);
        lemma_find_crlf_at(t, j - 1);
    }
}

/// A slice without any `CR LF` pair has no terminator to find.
pub proof fn lemma_find_crlf_none(s: Seq<u8>)
    requires
        forall|k: int| 0 <= k && k + 1 < s.len() ==> !(#[trigger] s[k] == CR && s[k + 1] == LF),
    ensures
        find_crlf(s) is None,
    decreases s.len(),
{
    if s.len() < 2 {
    } else {
        let t = s.drop_first();
        assert(forall|k: int| 0 <= k && k + 1 < t.len() ==> #[trigger] t[k] == s[k + 1] && t[k + 1] == s[k
            + 2]);
        lemma_find_crlf_none(t);
    }
}

/// Whether `b` is a decimal digit byte.
pub open spec fn is_digit(b: u8) -> bool {
    48 <= b <= 57
}

/// Whether every byte of `s` is a decimal digit.
pub open spec fn all_digits(s: Seq<u8>) -> bool {
    forall|i: int| 0 <= i < s.len() ==> is_digit(#[trigger] s[i])
}

/// The number a sequence of digit bytes spells, most significant first.
pub open spec fn digits_val(s: Seq<u8>) -> nat
    decreases s.len(),
{
    if s.len() == 0 {
        0
    } else {
        digits_val(s.drop_last()) * 10 + (if s.last() >= 48 {
            (s.last() - 48) as nat
        } else {
            0
        })
    }
}

/// A digit string spells at least as much as any of its prefixes.
pub proof fn lemma_digits_val_take(s: Seq<u8>, m: int)
    requires
        0 <= m <= s.len(),
    ensures
        digits_val(s.take(m)) <= digits_val(s),
    decreases s.len(),
{
    if m == s.len() {
        assert(s.take(m) =~= s);
    } else {
        assert(s.take(m) =~= s.drop_last().take(m));
        lemma_digits_val_take(s.drop_last(), m);
    }
}

/// The decimal digits of `n`, most significant first.
pub open spec fn dec_digits(n: nat) -> Seq<u8>
    decreases n,
{
    if n < 10 {
        seq![(48 + n) as u8]
    } else {
        dec_digits(n / 10).push((48 + n % 10) as u8)
    }
}

/// The decimal digits of `n` are nonempty, are all digit bytes, and spell `n`.
pub proof fn lemma_dec_digits(n: nat)
    ensures
        dec_digits(n).len() >= 1,
        all_digits(dec_digits(n)),
        digits_val(dec_digits(n)) == n,
    decreases n,
{
    if n < 10 {
        let e = seq![(48 + n) as u8];
        assert(e.drop_last() =~= Seq::<u8>::empty());
        assert(digits_val(Seq::<u8>::empty()) == 0);
        assert(e.last() == (48 + n) as u8);
        assert(digits_val(e) == n);
    } else {
        lemma_dec_digits(n / 10);
        let d = dec_digits(n / 10);
        let e = d.push((48 + n % 10) as u8);
        assert(e.drop_last() =~= d);
        assert(e.last() == (48 + n % 10) as u8);
        assert(digits_val(e) == digits_val(d) * 10 + n % 10);
        assert(digits_val(d) * 10 + n % 10 == n) by {
            assert(n == 10 * (n / 10) + n % 10) by (nonlinear_arith);
        }
        assert(forall|i: int| 0 <= i < e.len() ==> is_digit(#[trigger] e[i]));
    }
}

/// The result of reading a length field: the count it declares, or nothing
/// where the field is not a plain nonnegative decimal within [`LEN_LIMIT`].
pub open spec fn parse_unsigned(s: Seq<u8>) -> Option<nat> {
    if s.len() > 0 && all_digits(s) && digits_val(s) <= LEN_LIMIT {
        Some(digits_val(s))
    } else {
        None
    }
}

/// A length field: decimal digits, optionally preceded by a sign. A minus
/// sign is rejected outright, since a negative length is invalid.
pub open spec fn parse_len_field(s: Seq<u8>) -> Option<nat> {
    if s.len() > 0 && s[0] == SIGN_MINUS {
        None
    } else if s.len() > 0 && s[0] == SIGN_PLUS {
        parse_unsigned(s.drop_first())
    } else {
        parse_unsigned(s)
    }
}

/// Read a length field out of `buffer`, exactly as [`parse_len_field`]
/// describes it.
pub fn parse_int(buffer: &[u8]) -> (r: Option<u64>)
    ensures
        match parse_len_field(buffer@) {
            Some(n) => r == Some(n as u64) && n <= LEN_LIMIT,
            None => r is None,
        },
{
    let n = buffer.len();
    let mut start: usize = 0;
    if n > 0 && buffer[0] == SIGN_MINUS {
        return None;
    }
    if n > 0 && buffer[0] == SIGN_PLUS {
        start = 1;
    }
    let ghost digits = if start == 1 {
        buffer@.drop_first()
    } else {
        buffer@
    };
    if n == start {
        return None;
    }
    let mut acc: u64 = 0;
    let mut i: usize = start;
    while i < n
        invariant
            start <= i <= n,
            n == buffer@.len(),
            start < n,
            start == 0 || start == 1,
            digits == buffer@.skip(start as int),
            digits == if start == 1 { buffer@.drop_first() } else { buffer@ },
            parse_len_field(buffer@) == parse_unsigned(digits),
            acc <= LEN_LIMIT,
            acc == digits_val(digits.take(i - start)),
            forall|k: int| 0 <= k < i - start ==> is_digit(#[trigger] digits[k]),
        decreases n - i,
    {
        let b = buffer[i];
        proof {
            assert(digits[i - start] == buffer@[i as int]);
        }
        if b < 48 || b > 57 {
            proof {
                assert(!is_digit(digits[i - start]));
            }
            return None;
        }
        let d = (b - 48) as u64;
        let next = acc * 10 + d;
        proof {
            assert(digits.take(i - start + 1).drop_last() =~= digits.take(i - start));
            assert(digits.take(i - start + 1).last() == digits[i - start]);
        }
        if next > LEN_LIMIT {
            proof {
                if all_digits(digits) {
                    lemma_digits_val_take(digits, i - start + 1);
                }
            }
            return None;
        }
        acc = next;
        i = i + 1;
    }
    proof {
        assert(digits.take(n - start) =~= digits);
    }
    Some(acc)
}

/// A protocol value: a status line, a binary-safe bulk string, or an ordered
/// array of further values. A constructible status line carries no `CR` or
/// `LF` (see [`frame_wf`]), so that its encoding ends at its own terminator.
#[derive(Debug)]
pub enum Value {
    Array(Vec<Value>),
    BulkString(Vec<u8>),
    SimpleString(Vec<u8>),
}

/// The mathematical shape of a protocol value, used by all contracts.
pub ghost enum Frame {
    Simple(Seq<u8>),
    Bulk(Seq<u8>),
    Arr(Seq<Frame>),
}

/// The shapes of a run of values.
pub open spec fn frames_of(s: Seq<Value>) -> Seq<Frame>
    decreases s,
{
    if s.len() == 0 {
        Seq::empty()
    } else {
        seq![s.first()@] + frames_of(s.drop_first())
    }
}

/// A run of values has one frame shape per value.
pub proof fn lemma_frames_of_len(s: Seq<Value>)
    ensures
        frames_of(s).len() == s.len(),
    decreases s.len(),
{
    if s.len() > 0 {
        lemma_frames_of_len(s.drop_first());
        assert(frames_of(s) == seq![s.first()@] + frames_of(s.drop_first()));
        assert(frames_of(s).len() == 1 + frames_of(s.drop_first()).len());
    }
}

/// The shape of the value at `i` stands at `i` among the shapes.
pub proof fn lemma_frames_of_index(s: Seq<Value>, i: int)
    requires
        0 <= i < s.len(),
    ensures
        frames_of(s)[i] == s[i]@,
    decreases i,
{
    assert(frames_of(s) == seq![s.first()@] + frames_of(s.drop_first()));
    assert(seq![s.first()@].len() == 1);
    if i == 0 {
        assert(frames_of(s)[0] == s.first()@);
    } else {
        lemma_frames_of_len(s.drop_first());
        lemma_frames_of_index(s.drop_first(), i - 1);
        assert(frames_of(s)[i] == frames_of(s.drop_first())[i - 1]);
    }
}

/// Dropping the first value drops the first shape.
pub proof fn lemma_frames_of_drop_first(s: Seq<Value>)
    requires
        s.len() > 0,
    ensures
        frames_of(s.drop_first()) == frames_of(s).drop_first(),
{
    lemma_frames_of_len(s);
    lemma_frames_of_len(s.drop_first());
    assert forall|i: int| 0 <= i < s.len() - 1 implies frames_of(s.drop_first())[i] == #[trigger] frames_of(
        s,
    ).drop_first()[i] by {
        lemma_frames_of_index(s.drop_first(), i);
        lemma_frames_of_index(s, i + 1);
    }
    assert(frames_of(s.drop_first()) =~= frames_of(s).drop_first());
}

impl View for Value {
    type V = Frame;

    open spec fn view(&self) -> Frame
        decreases self,
    {
        match self {
            Value::SimpleString(s) => Frame::Simple(s@),
            Value::BulkString(b) => Frame::Bulk(b@),
            Value::Array(items) => Frame::Arr(frames_of(items@)),
        }
    }
}

/// How deeply a frame nests; a frame with no arrays has depth one.
pub open spec fn frame_depth(f: Frame) -> nat
    decreases f,
{
    match f {
        Frame::Simple(_) => 1,
        Frame::Bulk(_) => 1,
        Frame::Arr(items) => 1 + frames_depth(items),
    }
}

/// The deepest nesting among a run of frames.
pub open spec fn frames_depth(items: Seq<Frame>) -> nat
    decreases items,
{
    if items.len() == 0 {
        0
    } else if frame_depth(items.first()) >= frames_depth(items.drop_first()) {
        frame_depth(items.first())
    } else {
        frames_depth(items.drop_first())
    }
}

/// A constructible frame: status lines carry no `CR` or `LF`, and declared
/// lengths and counts stay within [`LEN_LIMIT`].
pub open spec fn frame_wf(f: Frame) -> bool
    decreases f,
{
    match f {
        Frame::Simple(s) => forall|i: int| 0 <= i < s.len() ==> #[trigger] s[i] != CR && s[i] != LF,
        Frame::Bulk(b) => b.len() <= LEN_LIMIT,
        Frame::Arr(items) => items.len() <= LEN_LIMIT && forall|i: int|
            0 <= i < items.len() ==> frame_wf(#[trigger] items[i]),
    }
}

/// The frame terminator.
pub open spec fn crlf() -> Seq<u8> {
    seq![CR, LF]
}

/// The exact wire bytes of a frame.
pub open spec fn encoding(f: Frame) -> Seq<u8>
    decreases f,
{
    match f {
        Frame::Simple(s) => seq![MARK_SIMPLE] + s + crlf(),
        Frame::Bulk(b) => seq![MARK_BULK] + dec_digits(b.len()) + crlf() + b + crlf(),
        Frame::Arr(items) => seq![MARK_ARRAY] + dec_digits(items.len()) + crlf() + encodings(items),
    }
}

/// The wire bytes of a run of frames, one after the other.
pub open spec fn encodings(items: Seq<Frame>) -> Seq<u8>
    decreases items,
{
    if items.len() == 0 {
        Seq::empty()
    } else {
        encoding(items.first()) + encodings(items.drop_first())
    }
}

/// Append the decimal digits of `n` to `out`.
pub fn push_decimal(out: &mut Vec<u8>, n: u64)
    ensures
        final(out)@ == old(out)@ + dec_digits(n as nat),
    decreases n,
{
    if n >= 10 {
        push_decimal(out, n / 10);
    }
    out.push((n % 10) as u8 + 48);
    proof {
        if n < 10 {
            assert(out@ =~= old(out)@ + dec_digits(n as nat));
        } else {
            assert(out@ =~= old(out)@ + dec_digits(n as nat));
        }
    }
}

impl Value {
    /// Serialize a status or bulk string into its exact wire bytes. Arrays
    /// are never serialized by this system; asking for one is a caller bug,
    /// which this contract rules out.
    pub fn serialise(self) -> (r: Vec<u8>)
        requires
            !(self is Array),
        ensures
            r@ == encoding(self@),
    {
        let mut out: Vec<u8> = Vec::new();
        match self {
            Value::SimpleString(s) => {
                out.push(MARK_SIMPLE);
                out.extend_from_slice(s.as_slice());
                out.push(CR);
                out.push(LF);
                proof {
                    assert(out@ =~= seq![MARK_SIMPLE] + s@ + crlf());
                }
            },
            Value::BulkString(b) => {
                out.push(MARK_BULK);
                push_decimal(&mut out, b.len() as u64);
                out.push(CR);
                out.push(LF);
                out.extend_from_slice(b.as_slice());
                out.push(CR);
                out.push(LF);
                proof {
                    assert(out@ =~= seq![MARK_BULK] + dec_digits(b@.len()) + crlf() + b@ + crlf());
                }
            },
            Value::Array(_) => {},
        }
        out
    }
}

/// Scan `buffer` for the first `CR LF` pair; return the bytes before it and
/// how many bytes the line takes, terminator included.
pub fn read_until_term(buffer: &[u8]) -> (r: Option<(&[u8], usize)>)
    ensures
        match find_crlf(buffer@) {
            Some(j) => r matches Some((line, used)) && 0 <= j && line@ == buffer@.take(j)
                && used == j + 2 && j + 2 <= buffer@.len(),
            None => r is None,
        },
{
    let n = buffer.len();
    let mut i: usize = 1;
    while i < n
        invariant
            1 <= i,
            n == buffer@.len(),
            forall|k: int| 0 <= k < i - 1 ==> !(#[trigger] buffer@[k] == CR && buffer@[k + 1] == LF),
        decreases n - i,
    {
        if buffer[i - 1] == CR && buffer[i] == LF {
            proof {
                lemma_find_crlf_at(buffer@, i - 1);
            }
            let line = vstd::slice::slice_subrange(buffer, 0, i - 1);
            return Some((line, i + 1));
        }
        i = i + 1;
    }
    proof {
        lemma_find_crlf_none(buffer@);
    }
    None
}

/// What one frame parses to: a frame and the bytes it took, a signal that
/// the buffer does not yet hold a whole frame, or a malformed frame.
pub ghost enum Parsed {
    Found { frame: Frame, used: nat },
    Incomplete,
    Malformed,
}

/// What a run of frames, one after the other, parses to.
pub ghost enum ParsedRun {
    Found { frames: Seq<Frame>, used: nat },
    Incomplete,
    Malformed,
}

/// The one frame standing at the start of `s`, allowing `depth` levels of
/// nesting. This is the decoder's whole meaning: the executable parser
/// returns exactly what this function says.
pub open spec fn spec_decode(s: Seq<u8>, depth: nat) -> Parsed
    decreases s.len(), 0nat, 0nat,
{
    if depth == 0 {
        Parsed::Malformed
    } else if s.len() == 0 {
        Parsed::Incomplete
    } else if s[0] == MARK_SIMPLE {
        match find_crlf(s.drop_first()) {
            None => Parsed::Incomplete,
            Some(j) => Parsed::Found {
                frame: Frame::Simple(s.drop_first().take(j)),
                used: (1 + j + 2) as nat,
            },
        }
    } else if s[0] == MARK_BULK {
        match find_crlf(s.drop_first()) {
            None => Parsed::Incomplete,
            Some(j) => match parse_len_field(s.drop_first().take(j)) {
                None => Parsed::Malformed,
                Some(n) => if s.len() < 1 + j + 2 + n + 2 {
                    Parsed::Incomplete
                } else {
                    Parsed::Found {
                        frame: Frame::Bulk(s.subrange(1 + j + 2, 1 + j + 2 + n)),
                        used: (1 + j + 2 + n + 2) as nat,
                    }
                },
            },
        }
    } else if s[0] == MARK_ARRAY {
        match find_crlf(s.drop_first()) {
            None => Parsed::Incomplete,
            Some(j) => match parse_len_field(s.drop_first().take(j)) {
                None => Parsed::Malformed,
                Some(cnt) => if 0 <= j && 1 + j + 2 <= s.len() {
                    match spec_decode_run(s.skip(1 + j + 2), cnt, (depth - 1) as nat) {
                        ParsedRun::Incomplete => Parsed::Incomplete,
                        ParsedRun::Malformed => Parsed::Malformed,
                        ParsedRun::Found { frames, used } => Parsed::Found {
                            frame: Frame::Arr(frames),
                            used: (1 + j + 2 + used) as nat,
                        },
                    }
                } else {
                    // unreachable: a found terminator always lies within `s`
                    Parsed::Malformed
                },
            },
        }
    } else {
        Parsed::Malformed
    }
}

/// A run of `n` frames, one after the other, at the start of `s`.
pub open spec fn spec_decode_run(s: Seq<u8>, n: nat, depth: nat) -> ParsedRun
    decreases s.len(), 1nat, n,
{
    if n == 0 {
        ParsedRun::Found { frames: Seq::empty(), used: 0 }
    } else {
        match spec_decode(s, depth) {
            Parsed::Incomplete => ParsedRun::Incomplete,
            Parsed::Malformed => ParsedRun::Malformed,
            Parsed::Found { frame, used } => if used <= s.len() {
                match spec_decode_run(s.skip(used as int), (n - 1) as nat, depth) {
                    ParsedRun::Incomplete => ParsedRun::Incomplete,
                    ParsedRun::Malformed => ParsedRun::Malformed,
                    ParsedRun::Found { frames, used: more } => ParsedRun::Found {
                        frames: seq![frame] + frames,
                        used: (used + more) as nat,
                    },
                }
            } else {
                // unreachable: a frame never parses past the end of `s`
                ParsedRun::Malformed
            },
        }
    }
}

/// The decoder's verdict on a byte slice.
pub enum Decoded {
    /// A whole frame, and how many bytes of the buffer it took.
    Found(Value, usize),
    /// Correct so far, but the buffer does not yet hold a whole frame.
    Incomplete,
    /// The bytes cannot begin a frame, however the buffer may grow.
    Malformed,
}

/// Whether the decoder's verdict `r` says exactly what the specification
/// verdict `p` says.
pub open spec fn decoded_matches(r: Decoded, p: Parsed) -> bool {
    match p {
        Parsed::Found { frame, used } => r matches Decoded::Found(v, u) && v@ == frame && u
            == used,
        Parsed::Incomplete => r is Incomplete,
        Parsed::Malformed => r is Malformed,
    }
}

/// Appending one value extends the run of frame shapes by its shape.
pub proof fn lemma_frames_of_push(s: Seq<Value>, v: Value)
    ensures
        frames_of(s.push(v)) == frames_of(s) + seq![v@],
    decreases s.len(),
{
    let e = s.push(v);
    assert(frames_of(Seq::<Value>::empty()) == Seq::<Frame>::empty());
    if s.len() == 0 {
        assert(e.drop_first() =~= Seq::<Value>::empty());
        assert(e.first() == v);
        assert(frames_of(e) == seq![v@] + Seq::<Frame>::empty());
        assert(frames_of(e) =~= frames_of(s) + seq![v@]);
    } else {
        assert(e.drop_first() =~= s.drop_first().push(v));
        lemma_frames_of_push(s.drop_first(), v);
        assert(e.first() == s.first());
        assert(frames_of(e) == seq![s.first()@] + (frames_of(s.drop_first()) + seq![v@]));
        assert(frames_of(s) == seq![s.first()@] + frames_of(s.drop_first()));
        assert(frames_of(e) =~= frames_of(s) + seq![v@]);
    }
}

/// Parse one status frame standing at `off`: everything up to the first
/// terminator is the status text.
fn parse_simple_string(buffer: &[u8], off: usize, depth: u32) -> (r: Decoded)
    requires
        off < buffer@.len(),
        buffer@[off as int] == MARK_SIMPLE,
        depth >= 1,
    ensures
        decoded_matches(r, spec_decode(buffer@.skip(off as int), depth as nat)),
        r matches Decoded::Found(_, used) ==> off + used <= buffer@.len(),
{
    let ghost s = buffer@.skip(off as int);
    proof {
        assert(s[0] == buffer@[off as int]);
        assert(s.drop_first() =~= buffer@.skip(off + 1));
    }
    let end = buffer.len();
    let tail = vstd::slice::slice_subrange(buffer, off + 1, end);
    proof {
        assert(tail@ =~= s.drop_first());
    }
    match read_until_term(tail) {
        None => Decoded::Incomplete,
        Some((line, used)) => {
            let text = vstd::slice::slice_to_vec(line);
            proof {
                let j = find_crlf(s.drop_first())->Some_0;
                assert(text@ == s.drop_first().take(j));
            }
            Decoded::Found(Value::SimpleString(text), 1 + used)
        },
    }
}

/// Parse one bulk string frame standing at `off`: a declared length, then
/// exactly that many raw bytes, then a terminator that is consumed without
/// being inspected.
fn parse_bulk_string(buffer: &[u8], off: usize, depth: u32) -> (r: Decoded)
    requires
        off < buffer@.len(),
        buffer@[off as int] == MARK_BULK,
        depth >= 1,
    ensures
        decoded_matches(r, spec_decode(buffer@.skip(off as int), depth as nat)),
        r matches Decoded::Found(_, used) ==> off + used <= buffer@.len(),
{
    let ghost s = buffer@.skip(off as int);
    proof {
        assert(s[0] == buffer@[off as int]);
        assert(s.drop_first() =~= buffer@.skip(off + 1));
    }
    let end = buffer.len();
    let tail = vstd::slice::slice_subrange(buffer, off + 1, end);
    proof {
        assert(tail@ =~= s.drop_first());
    }
    match read_until_term(tail) {
        None => Decoded::Incomplete,
        Some((line, lused)) => {
            let ghost j = lused - 2;
            match parse_int(line) {
                None => Decoded::Malformed,
                Some(len64) => {
                    let n = len64 as usize;
                    let header = 1 + lused;
                    if end - (off + header) < n + 2 {
                        proof {
                            assert(s.len() < 1 + j + 2 + n + 2);
                        }
                        Decoded::Incomplete
                    } else {
                        let pstart = off + header;
                        let payload = vstd::slice::slice_to_vec(
                            vstd::slice::slice_subrange(buffer, pstart, pstart + n),
                        );
                        proof {
                            assert(payload@ =~= s.subrange(1 + j + 2, 1 + j + 2 + n));
                        }
                        Decoded::Found(Value::BulkString(payload), header + n + 2)
                    }
                },
            }
        },
    }
}

/// Parse one array frame standing at `off`: a declared element count, then
/// that many nested frames, each parsed with one less level of nesting
/// allowed.
#[verifier::loop_isolation(false)]
fn parse_array(buffer: &[u8], off: usize, depth: u32) -> (r: Decoded)
    requires
        off < buffer@.len(),
        buffer@[off as int] == MARK_ARRAY,
        depth >= 1,
    ensures
        decoded_matches(r, spec_decode(buffer@.skip(off as int), depth as nat)),
        r matches Decoded::Found(_, used) ==> off + used <= buffer@.len(),
    decreases buffer@.len() - off, 0nat,
{
    let ghost s = buffer@.skip(off as int);
    proof {
        assert(s[0] == buffer@[off as int]);
        assert(s.drop_first() =~= buffer@.skip(off + 1));
    }
    let end = buffer.len();
    let tail = vstd::slice::slice_subrange(buffer, off + 1, end);
    proof {
        assert(tail@ =~= s.drop_first());
    }
    match read_until_term(tail) {
        None => Decoded::Incomplete,
        Some((line, lused)) => {
            let ghost j = lused - 2;
            match parse_int(line) {
                None => Decoded::Malformed,
                Some(cnt) => {
                    let he = off + 1 + lused;
                    let ghost dm = (depth - 1) as nat;
                    proof {
                        assert(buffer@.skip(he as int) =~= s.skip(1 + j + 2));
                    }
                    let mut items: Vec<Value> = Vec::new();
                    let mut cur: usize = he;
                    let mut k: u64 = 0;
                    while k < cnt
                        invariant
                            k <= cnt,
                            off < he <= cur <= buffer@.len(),
                            1 <= depth,
                            dm == (depth - 1) as nat,
                            items@.len() == k,
                            match spec_decode_run(buffer@.skip(cur as int), (cnt - k) as nat, dm) {
                                ParsedRun::Found { frames, used } => spec_decode_run(
                                    buffer@.skip(he as int),
                                    cnt as nat,
                                    dm,
                                ) == (ParsedRun::Found {
                                    frames: frames_of(items@) + frames,
                                    used: (cur - he + used) as nat,
                                }),
                                ParsedRun::Incomplete => spec_decode_run(
                                    buffer@.skip(he as int),
                                    cnt as nat,
                                    dm,
                                ) is Incomplete,
                                ParsedRun::Malformed => spec_decode_run(
                                    buffer@.skip(he as int),
                                    cnt as nat,
                                    dm,
                                ) is Malformed,
                            },
                        decreases cnt - k,
                    {
                        let ghost rem = buffer@.skip(cur as int);
                        match parse_at(buffer, cur, depth - 1) {
                            Decoded::Incomplete => {
                                return Decoded::Incomplete;
                            },
                            Decoded::Malformed => {
                                return Decoded::Malformed;
                            },
                            Decoded::Found(v, used) => {
                                proof {
                                    assert(rem.skip(used as int) =~= buffer@.skip(
                                        cur + used as int,
                                    ));
                                    lemma_frames_of_push(items@, v);
                                    let run_rest = spec_decode_run(
                                        buffer@.skip(cur + used as int),
                                        (cnt - k - 1) as nat,
                                        dm,
                                    );
                                    if run_rest is Found {
                                        assert((frames_of(items@) + seq![v@])
                                            + run_rest->Found_frames =~= frames_of(items@) + (
                                        seq![v@] + run_rest->Found_frames));
                                    }
                                }
                                items.push(v);
                                cur = cur + used;
                                k = k + 1;
                            },
                        }
                    }
                    proof {
                        assert(frames_of(items@) + Seq::<Frame>::empty() =~= frames_of(items@));
                    }
                    Decoded::Found(Value::Array(items), cur - off)
                },
            }
        },
    }
}

/// Parse the one frame standing at `off`: dispatch on its marker byte.
fn parse_at(buffer: &[u8], off: usize, depth: u32) -> (r: Decoded)
    requires
        off <= buffer@.len(),
    ensures
        decoded_matches(r, spec_decode(buffer@.skip(off as int), depth as nat)),
        r matches Decoded::Found(_, used) ==> off + used <= buffer@.len(),
    decreases buffer@.len() - off, 1nat,
{
    let ghost s = buffer@.skip(off as int);
    if depth == 0 {
        return Decoded::Malformed;
    }
    if off == buffer.len() {
        return Decoded::Incomplete;
    }
    let marker = buffer[off];
    proof {
        assert(s[0] == buffer@[off as int]);
    }
    if marker == MARK_SIMPLE {
        parse_simple_string(buffer, off, depth)
    } else if marker == MARK_BULK {
        parse_bulk_string(buffer, off, depth)
    } else if marker == MARK_ARRAY {
        parse_array(buffer, off, depth)
    } else {
        Decoded::Malformed
    }
}

/// A constructible frame's wire bytes decode back to exactly that frame,
/// consuming exactly the frame's whole length, whatever bytes follow it.
pub proof fn lemma_encoding_decodes(f: Frame, extra: Seq<u8>, depth: nat)
    requires
        frame_wf(f),
        depth >= frame_depth(f),
    ensures
        spec_decode(encoding(f) + extra, depth) == (Parsed::Found {
            frame: f,
            used: encoding(f).len(),
        }),
    decreases f,
{
    let s = encoding(f) + extra;
    match f {
        Frame::Simple(t) => {
            let u = t + crlf() + extra;
            assert(s[0] == MARK_SIMPLE);
            assert(s.drop_first() =~= u);
            let j = t.len() as int;
            assert(u[j] == CR && u[j + 1] == LF);
            assert(forall|k: int| 0 <= k < j ==> #[trigger] u[k] == t[k]);
            assert(forall|k: int| 0 <= k < j ==> !(#[trigger] u[k] == CR && u[k + 1] == LF));
            lemma_find_crlf_at(u, j);
            assert(u.take(j) =~= t);
            assert(encoding(f).len() == 1 + j + 2);
        },
        Frame::Bulk(b) => {
            let dd = dec_digits(b.len());
            lemma_dec_digits(b.len());
            let u = dd + crlf() + b + crlf() + extra;
            assert(s[0] == MARK_BULK);
            assert(s.drop_first() =~= u);
            let j = dd.len() as int;
            let n = b.len() as int;
            assert(u[j] == CR && u[j + 1] == LF);
            assert(forall|k: int| 0 <= k < j ==> #[trigger] u[k] == dd[k]);
            assert(forall|k: int| 0 <= k < j ==> !(#[trigger] u[k] == CR && u[k + 1] == LF));
            lemma_find_crlf_at(u, j);
            assert(u.take(j) =~= dd);
            assert(is_digit(dd[0]));
            assert(parse_len_field(dd) == Some(b.len()));
            assert(s.len() == 1 + j + 2 + n + 2 + extra.len());
            assert(s.subrange(1 + j + 2, 1 + j + 2 + n) =~= b);
            assert(encoding(f).len() == 1 + j + 2 + n + 2);
        },
        Frame::Arr(items) => {
            let dd = dec_digits(items.len());
            lemma_dec_digits(items.len());
            let body = encodings(items);
            let u = dd + crlf() + body + extra;
            assert(s[0] == MARK_ARRAY);
            assert(s.drop_first() =~= u);
            let j = dd.len() as int;
            assert(u[j] == CR && u[j + 1] == LF);
            assert(forall|k: int| 0 <= k < j ==> #[trigger] u[k] == dd[k]);
            assert(forall|k: int| 0 <= k < j ==> !(#[trigger] u[k] == CR && u[k + 1] == LF));
            lemma_find_crlf_at(u, j);
            assert(u.take(j) =~= dd);
            assert(is_digit(dd[0]));
            assert(parse_len_field(dd) == Some(items.len()));
            assert(1 + j + 2 <= s.len());
            assert(s.skip(1 + j + 2) =~= body + extra);
            assert(depth - 1 >= frames_depth(items));
            lemma_encodings_decode_run(items, extra, (depth - 1) as nat);
            assert(encoding(f).len() == 1 + j + 2 + body.len());
        },
    }
}

/// A run of constructible frames' wire bytes, laid end to end, decodes back
/// to exactly those frames, whatever bytes follow.
pub proof fn lemma_encodings_decode_run(items: Seq<Frame>, extra: Seq<u8>, depth: nat)
    requires
        forall|i: int| 0 <= i < items.len() ==> frame_wf(#[trigger] items[i]),
        depth >= frames_depth(items),
    ensures
        spec_decode_run(encodings(items) + extra, items.len(), depth) == (ParsedRun::Found {
            frames: items,
            used: encodings(items).len(),
        }),
    decreases items,
{
    if items.len() == 0 {
        assert(encodings(items) + extra =~= extra);
        assert(items =~= Seq::<Frame>::empty());
    } else {
        let first = items.first();
        let rest = items.drop_first();
        let enc0 = encoding(first);
        let encr = encodings(rest);
        let s = encodings(items) + extra;
        assert(encodings(items) == enc0 + encr);
        assert(s =~= enc0 + (encr + extra));
        assert(frame_wf(first));
        assert(frames_depth(items) >= frame_depth(first));
        lemma_encoding_decodes(first, encr + extra, depth);
        assert(spec_decode(s, depth) == (Parsed::Found { frame: first, used: enc0.len() }));
        assert(enc0.len() <= s.len());
        assert(s.skip(enc0.len() as int) =~= encr + extra);
        assert(forall|i: int| 0 <= i < rest.len() ==> frame_wf(#[trigger] rest[i]));
        assert(depth >= frames_depth(rest));
        lemma_encodings_decode_run(rest, extra, depth);
        assert(seq![first] + rest =~= items);
        assert(encodings(items).len() == enc0.len() + encr.len());
    }
}

/// Any proper prefix of a constructible frame's wire bytes decodes to
/// "incomplete", never to an error and never to a frame.
pub proof fn lemma_prefix_incomplete(f: Frame, m: int, depth: nat)
    requires
        frame_wf(f),
        depth >= frame_depth(f),
        0 <= m < encoding(f).len(),
    ensures
        spec_decode(encoding(f).take(m), depth) == Parsed::Incomplete,
    decreases f,
{
    let p = encoding(f).take(m);
    if m == 0 {
        assert(p.len() == 0);
    } else {
        match f {
            Frame::Simple(t) => {
                let j = t.len() as int;
                assert(p[0] == MARK_SIMPLE);
                let u = p.drop_first();
                assert(u =~= (t + crlf()).take(m - 1));
                assert(m - 1 <= j + 1);
                assert forall|k: int| 0 <= k && k + 1 < u.len() implies !(#[trigger] u[k] == CR
                    && u[k + 1] == LF) by {
                    assert(u[k] == t[k]);
                }
                lemma_find_crlf_none(u);
            },
            Frame::Bulk(b) => {
                let dd = dec_digits(b.len());
                lemma_dec_digits(b.len());
                let j = dd.len() as int;
                let n = b.len() as int;
                assert(p[0] == MARK_BULK);
                let u = p.drop_first();
                let w = dd + crlf() + b + crlf();
                assert(u =~= w.take(m - 1));
                if m - 1 < j + 2 {
                    assert forall|k: int| 0 <= k && k + 1 < u.len() implies !(#[trigger] u[k] == CR
                        && u[k + 1] == LF) by {
                        assert(u[k] == dd[k]);
                        assert(is_digit(dd[k]));
                    }
                    lemma_find_crlf_none(u);
                } else {
                    assert(u[j] == CR && u[j + 1] == LF);
                    assert(forall|k: int| 0 <= k < j ==> #[trigger] u[k] == dd[k]);
                    assert(forall|k: int| 0 <= k < j ==> !(#[trigger] u[k] == CR && u[k + 1]
                        == LF));
                    lemma_find_crlf_at(u, j);
                    assert(u.take(j) =~= dd);
                    assert(is_digit(dd[0]));
                    assert(parse_len_field(dd) == Some(b.len()));
                    assert(p.len() < 1 + j + 2 + n + 2);
                }
            },
            Frame::Arr(items) => {
                let dd = dec_digits(items.len());
                lemma_dec_digits(items.len());
                let j = dd.len() as int;
                let body = encodings(items);
                assert(p[0] == MARK_ARRAY);
                let u = p.drop_first();
                let w = dd + crlf() + body;
                assert(u =~= w.take(m - 1));
                if m - 1 < j + 2 {
                    assert forall|k: int| 0 <= k && k + 1 < u.len() implies !(#[trigger] u[k] == CR
                        && u[k + 1] == LF) by {
                        assert(u[k] == dd[k]);
                        assert(is_digit(dd[k]));
                    }
                    lemma_find_crlf_none(u);
                } else {
                    assert(u[j] == CR && u[j + 1] == LF);
                    assert(forall|k: int| 0 <= k < j ==> #[trigger] u[k] == dd[k]);
                    assert(forall|k: int| 0 <= k < j ==> !(#[trigger] u[k] == CR && u[k + 1]
                        == LF));
                    lemma_find_crlf_at(u, j);
                    assert(u.take(j) =~= dd);
                    assert(is_digit(dd[0]));
                    assert(parse_len_field(dd) == Some(items.len()));
                    assert(1 + j + 2 <= p.len());
                    let m2 = m - (1 + j + 2);
                    assert(p.skip(1 + j + 2) =~= body.take(m2));
                    assert(0 <= m2 < body.len());
                    assert(depth - 1 >= frames_depth(items));
                    lemma_run_prefix_incomplete(items, m2, (depth - 1) as nat);
                }
            },
        }
    }
}

/// Any proper prefix of a run of constructible frames' wire bytes decodes to
/// "incomplete".
pub proof fn lemma_run_prefix_incomplete(items: Seq<Frame>, m: int, depth: nat)
    requires
        forall|i: int| 0 <= i < items.len() ==> frame_wf(#[trigger] items[i]),
        depth >= frames_depth(items),
        0 <= m < encodings(items).len(),
    ensures
        spec_decode_run(encodings(items).take(m), items.len(), depth) == ParsedRun::Incomplete,
    decreases items,
{
    if items.len() == 0 {
        assert(encodings(items).len() == 0);
    } else {
        let first = items.first();
        let rest = items.drop_first();
        let enc0 = encoding(first);
        let encr = encodings(rest);
        assert(encodings(items) == enc0 + encr);
        let p = encodings(items).take(m);
        assert(frame_wf(first));
        assert(depth >= frame_depth(first));
        if m < enc0.len() {
            assert(p =~= enc0.take(m));
            lemma_prefix_incomplete(first, m, depth);
            assert(spec_decode(p, depth) == Parsed::Incomplete);
            assert(spec_decode_run(p, items.len(), depth) == ParsedRun::Incomplete);
        } else if m == enc0.len() {
            assert(p =~= enc0 + Seq::<u8>::empty());
            lemma_encoding_decodes(first, Seq::empty(), depth);
            assert(p.skip(enc0.len() as int) =~= Seq::<u8>::empty());
            assert(rest.len() > 0) by {
                if rest.len() == 0 {
                    assert(encr.len() == 0);
                }
            }
            assert(frame_depth(first) >= 1);
            assert(spec_decode(Seq::<u8>::empty(), depth) == Parsed::Incomplete);
            assert(spec_decode_run(Seq::<u8>::empty(), rest.len(), depth)
                == ParsedRun::Incomplete);
            assert(spec_decode_run(p, items.len(), depth) == ParsedRun::Incomplete);
        } else {
            let m2 = m - enc0.len();
            assert(p =~= enc0 + encr.take(m2));
            lemma_encoding_decodes(first, encr.take(m2), depth);
            assert(p.skip(enc0.len() as int) =~= encr.take(m2));
            assert(forall|i: int| 0 <= i < rest.len() ==> frame_wf(#[trigger] rest[i]));
            assert(depth >= frames_depth(rest));
            assert(0 <= m2 < encr.len());
            lemma_run_prefix_incomplete(rest, m2, depth);
            assert(spec_decode_run(encr.take(m2), rest.len(), depth) == ParsedRun::Incomplete);
            assert(spec_decode_run(p, items.len(), depth) == ParsedRun::Incomplete);
        }
    }
}

/// Round trip: a constructible frame, once encoded, decodes back to exactly
/// itself, consuming exactly its whole encoding — for binary-safe bulk
/// strings by declared length alone, whatever bytes (terminators and null
/// bytes included) the payload holds.
pub proof fn lemma_round_trip(f: Frame, depth: nat)
    requires
        frame_wf(f),
        depth >= frame_depth(f),
    ensures
        spec_decode(encoding(f), depth) == (Parsed::Found { frame: f, used: encoding(f).len() }),
{
    assert(encoding(f) + Seq::<u8>::empty() =~= encoding(f));
    lemma_encoding_decodes(f, Seq::empty(), depth);
}

/// Incremental feed: split a constructible frame's wire bytes anywhere; the
/// first piece alone decodes to "incomplete", and once the rest has arrived
/// the decoder succeeds and consumes exactly the frame's whole length.
pub proof fn lemma_incremental_feed(f: Frame, m: int, depth: nat)
    requires
        frame_wf(f),
        depth >= frame_depth(f),
        0 <= m < encoding(f).len(),
    ensures
        spec_decode(encoding(f).take(m), depth) == Parsed::Incomplete,
        spec_decode(encoding(f), depth) == (Parsed::Found { frame: f, used: encoding(f).len() }),
{
    lemma_prefix_incomplete(f, m, depth);
    lemma_round_trip(f, depth);
}

/// Attempt to parse exactly one frame starting at `off`; the decoder's
/// public entry, allowing [`DEPTH_LIMIT`] levels of nesting.
pub fn parse_msg(buffer: &[u8], off: usize) -> (r: Decoded)
    requires
        off <= buffer@.len(),
    ensures
        decoded_matches(r, spec_decode(buffer@.skip(off as int), DEPTH_LIMIT as nat)),
        r matches Decoded::Found(_, used) ==> off + used <= buffer@.len(),
{
    parse_at(buffer, off, DEPTH_LIMIT)
}

} // verus!
