//! The object framing codec. An object is a zlib stream whose content is the
//! header `blob <decimal size>\0` followed by the payload.
use vstd::prelude::*;

verus! {

/// Why an object could not be decoded.
#[derive(Clone, Copy, Debug, PartialEq, Eq, Structural)]
pub enum DecodeError {
    /// The content does not start with `blob `.
    BadMagic,
    /// A byte between `blob ` and the NUL is not a decimal digit.
    BadSize,
    /// The content ends inside the header.
    UnexpectedEof,
    /// The zlib stream is corrupt or cut short.
    Corrupt,
}

/// The bytes `blob ` that open the header.
pub open spec fn blob_magic() -> Seq<u8> {
    seq![98u8, 108u8, 111u8, 98u8, 32u8]
}

/// The ASCII decimal digits of `n`, most significant first.
pub open spec fn decimal_digits(n: nat) -> Seq<u8>
    decreases n,
{
    if n < 10 {
        seq![(48 + n) as u8]
    } else {
        decimal_digits(n / 10).push((48 + n % 10) as u8)
    }
}

/// The header that frames a payload of `size` bytes.
pub open spec fn blob_header(size: nat) -> Seq<u8> {
    blob_magic() + decimal_digits(size) + seq![0u8]
}

/// Whether `c` is an ASCII decimal digit.
pub open spec fn is_digit(c: u8) -> bool {
    48 <= c <= 57
}

/// The first byte of `s` at or after `from` that is not a decimal digit.
pub open spec fn first_non_digit(s: Seq<u8>, from: int) -> Option<int>
    decreases s.len() - from,
{
    if from < 0 || from >= s.len() {
        None
    } else if !is_digit(s[from]) {
        Some(from)
    } else {
        first_non_digit(s, from + 1)
    }
}

/// What a prefix of an object's content shows of its header.
pub enum HeaderStatus {
    /// The header has not ended yet.
    Pending,
    /// The header is well-formed and the payload starts at the given position.
    Done(int),
    /// The header is malformed.
    Failed(DecodeError),
}

/// What the content `s` shows of its header: the five magic bytes are
/// checked once all five are there, then digits are read up to a NUL.
pub open spec fn header_status(s: Seq<u8>) -> HeaderStatus {
    if s.len() < 5 {
        HeaderStatus::Pending
    } else if s.subrange(0, 5) != blob_magic() {
        HeaderStatus::Failed(DecodeError::BadMagic)
    } else {
        match first_non_digit(s, 5) {
            None => HeaderStatus::Pending,
            Some(j) => if s[j] == 0 {
                HeaderStatus::Done(j + 1)
            } else {
                HeaderStatus::Failed(DecodeError::BadSize)
            },
        }
    }
}

/// The payload of the complete content `s`, or why it has none.
pub open spec fn strip_header(s: Seq<u8>) -> Result<Seq<u8>, DecodeError> {
    match header_status(s) {
        HeaderStatus::Pending => Err(DecodeError::UnexpectedEof),
        HeaderStatus::Done(k) => Ok(s.subrange(k, s.len() as int)),
        HeaderStatus::Failed(e) => Err(e),
    }
}

/// The first non-digit at or after `from` is not a digit, and all before it are.
pub proof fn lemma_first_non_digit(s: Seq<u8>, from: int)
    requires
        0 <= from,
    ensures
        first_non_digit(s, from) matches Some(j) ==> from <= j < s.len() && !is_digit(s[j])
            && forall|i: int| from <= i < j ==> is_digit(s[i]),
        first_non_digit(s, from) is None ==> forall|i: int| from <= i < s.len() ==> is_digit(s[i]),
    decreases s.len() - from,
{
    if from < s.len() && is_digit(s[from]) {
        lemma_first_non_digit(s, from + 1);
    }
}

/// The first non-digit depends only on the bytes up to it.
pub proof fn lemma_first_non_digit_extend(s: Seq<u8>, t: Seq<u8>, from: int)
    requires
        0 <= from,
    ensures
        first_non_digit(s, from) matches Some(j) ==> first_non_digit(s + t, from) == Some(j),
        first_non_digit(s, from) is None && from <= s.len() ==> first_non_digit(s + t, from)
            == first_non_digit(s + t, s.len() as int),
    decreases s.len() - from,
{
    if from < s.len() {
        assert((s + t)[from] == s[from]);
        if is_digit(s[from]) {
            lemma_first_non_digit_extend(s, t, from + 1);
        }
    }
}

/// Once the header has ended or failed, more content does not change that.
pub proof fn lemma_header_status_stable(s: Seq<u8>, t: Seq<u8>)
    ensures
        !(header_status(s) is Pending) ==> header_status(s + t) == header_status(s),
{
    if s.len() >= 5 {
        assert((s + t).subrange(0, 5) =~= s.subrange(0, 5));
        lemma_first_non_digit_extend(s, t, 5);
        lemma_first_non_digit(s, 5);
        if let Some(j) = first_non_digit(s, 5) {
            assert((s + t)[j] == s[j]);
        }
    }
}

/// The payload that the content `s` has shown so far: what follows a
/// complete, well-formed header, and nothing otherwise.
pub open spec fn payload_so_far(s: Seq<u8>) -> Seq<u8> {
    match header_status(s) {
        HeaderStatus::Done(k) => s.subrange(k, s.len() as int),
        _ => Seq::empty(),
    }
}

/// Strips the header from an object's content as it streams in: the content
/// is fed in pieces, and each piece yields the payload bytes it holds.
pub struct GitObjectReadSync {
    header_skipped: bool,
    magic: Vec<u8>,
    failure: Option<DecodeError>,
    consumed: Ghost<Seq<u8>>,
}

impl GitObjectReadSync {
    /// The content fed so far.
    pub closed spec fn consumed(&self) -> Seq<u8> {
        self.consumed@
    }

    /// The state agrees with the content fed so far.
    pub closed spec fn wf(&self) -> bool {
        let c = self.consumed@;
        if self.header_skipped {
            header_status(c) is Done
        } else if let Some(e) = self.failure {
            header_status(c) == HeaderStatus::Failed(e)
        } else {
            &&& header_status(c) is Pending
            &&& self.magic@ == c.subrange(0, if c.len() < 5 { c.len() as int } else { 5 })
        }
    }

    /// A decoder that has been fed nothing.
    pub fn new() -> (r: GitObjectReadSync)
        ensures
            r.wf(),
            r.consumed() == Seq::<u8>::empty(),
    {
        let r = GitObjectReadSync {
            header_skipped: false,
            magic: Vec::new(),
            failure: None,
            consumed: Ghost(Seq::empty()),
        };
        assert(r.magic@ =~= r.consumed@.subrange(0, 0));
        r
    }

    /// Feeds the next piece of content and appends the payload bytes it holds
    /// to `out`. Fails once the header has shown to be malformed.
    pub fn read(&mut self, input: &[u8], out: &mut Vec<u8>) -> (r: Result<(), DecodeError>)
        requires
            old(self).wf(),
        ensures
            final(self).wf(),
            final(self).consumed() == old(self).consumed() + input@,
            match header_status(final(self).consumed()) {
                HeaderStatus::Failed(e) => r == Err::<(), DecodeError>(e) && final(out)@ == old(out)@,
                _ => r is Ok && final(out)@ == old(out)@ + payload_so_far(final(self).consumed()).subrange(
                    payload_so_far(old(self).consumed()).len() as int,
                    payload_so_far(final(self).consumed()).len() as int,
                ),
            },
    {
        let ghost start = self.consumed@;
        let mut i: usize = 0;
        while i < input.len() && !self.header_skipped && self.failure.is_none()
            invariant
                i <= input@.len(),
                self.wf(),
                self.consumed@ == start + input@.subrange(0, i as int),
                !(header_status(start) is Pending) ==> i == 0,
                self.header_skipped && header_status(start) is Pending ==> header_status(
                    self.consumed@,
                ) == HeaderStatus::Done(self.consumed@.len() as int),
            decreases input@.len() - i,
        {
            let c = input[i];
            let ghost before = self.consumed@;
            proof {
                self.consumed = Ghost(before.push(c));
                assert(self.consumed@ =~= start + input@.subrange(0, i + 1));
                assert(before.push(c) =~= before + seq![c]);
                assert(before.push(c).subrange(0, before.len() as int) =~= before);
            }
            if self.magic.len() < 5 {
                self.magic.push(c);
                if self.magic.len() == 5 {
                    if !(self.magic[0] == 98 && self.magic[1] == 108 && self.magic[2] == 111
                        && self.magic[3] == 98 && self.magic[4] == 32) {
                        assert(self.consumed@.subrange(0, 5) != blob_magic()) by {
                            assert(self.consumed@.subrange(0, 5) =~= self.magic@);
                        }
                        self.failure = Some(DecodeError::BadMagic);
                    } else {
                        assert(self.consumed@.subrange(0, 5) =~= blob_magic());
                        assert(first_non_digit(self.consumed@, 5) is None);
                    }
                }
                assert(self.magic@ =~= self.consumed@.subrange(
                    0,
                    if self.consumed@.len() < 5 { self.consumed@.len() as int } else { 5 },
                ));
            } else {
                proof {
                    assert(self.consumed@.subrange(0, 5) =~= before.subrange(0, 5));
                    lemma_first_non_digit_extend(before, seq![c], 5);
                    assert(first_non_digit(self.consumed@, before.len() as int + 1) is None);
                }
                if c == 0 {
                    self.header_skipped = true;
                } else if !(48 <= c && c <= 57) {
                    self.failure = Some(DecodeError::BadSize);
                }
            }
            i = i + 1;
        }
        let ghost mid = self.consumed@;
        proof {
            let rest = input@.subrange(i as int, input@.len() as int);
            lemma_header_status_stable(mid, rest);
            assert(start + input@ =~= mid + rest);
            self.consumed = Ghost(mid + rest);
        }
        if let Some(e) = self.failure {
            if !self.header_skipped {
                return Err(e);
            }
        }
        if self.header_skipped {
            let ghost out0 = out@;
            let mut j: usize = i;
            while j < input.len()
                invariant
                    i <= j <= input@.len(),
                    out@ == out0 + input@.subrange(i as int, j as int),
                decreases input@.len() - j,
            {
                out.push(input[j]);
                j = j + 1;
                assert(out@ =~= out0 + input@.subrange(i as int, j as int));
            }
            proof {
                let fin = self.consumed@;
                lemma_header_status_stable(start, input@);
                if header_status(start) is Pending {
                    assert(header_status(fin) == HeaderStatus::Done(mid.len() as int));
                    assert(mid.len() == start.len() + i);
                    assert(payload_so_far(start).len() == 0);
                    assert(payload_so_far(fin) =~= input@.subrange(i as int, input@.len() as int));
                } else {
                    assert(i == 0);
                    lemma_first_non_digit(start, 5);
                    let k = header_status(start)->Done_0;
                    assert(k <= start.len());
                    assert(payload_so_far(fin) =~= payload_so_far(start) + input@);
                }
                assert(payload_so_far(fin).subrange(
                    payload_so_far(start).len() as int,
                    payload_so_far(fin).len() as int,
                ) =~= input@.subrange(i as int, input@.len() as int));
            }
        }
        Ok(())
    }

    /// Ends the content: succeeds exactly when the header was complete and
    /// well-formed.
    pub fn finish(&self) -> (r: Result<(), DecodeError>)
        requires
            self.wf(),
        ensures
            r == match strip_header(self.consumed()) {
                Ok(_) => Ok::<(), DecodeError>(()),
                Err(e) => Err(e),
            },
    {
        if self.header_skipped {
            Ok(())
        } else if let Some(e) = self.failure {
            Err(e)
        } else {
            Err(DecodeError::UnexpectedEof)
        }
    }
}

/// Every byte of a decimal numeral is a digit, and there is at least one.
pub proof fn lemma_decimal_digits(n: nat)
    ensures
        decimal_digits(n).len() >= 1,
        forall|i: int| 0 <= i < decimal_digits(n).len() ==> is_digit(#[trigger] decimal_digits(n)[i]),
    decreases n,
{
    if n >= 10 {
        lemma_decimal_digits(n / 10);
    }
}

/// Stripping the header from framed content gives back the payload: the
/// framing half of the codec's round trip.
pub proof fn lemma_frame_round_trip(size: nat, payload: Seq<u8>)
    ensures
        strip_header(blob_header(size) + payload) == Ok::<Seq<u8>, DecodeError>(payload),
{
    let d = decimal_digits(size);
    let s = blob_header(size) + payload;
    lemma_decimal_digits(size);
    assert(s.subrange(0, 5) =~= blob_magic());
    let j: int = 5 + d.len() as int;
    assert forall|i: int| 5 <= i < j implies is_digit(s[i]) by {
        assert(s[i] == d[i - 5]);
    }
    assert(s[j] == 0);
    lemma_first_non_digit(s, 5);
    assert(first_non_digit(s, 5) == Some(j)) by {
        if let Some(m) = first_non_digit(s, 5) {
            assert(m >= j);
            assert(!is_digit(s[j]));
        } else {
            assert(!is_digit(s[j]));
        }
    }
    assert(s.subrange(j + 1, s.len() as int) =~= payload);
}

/// The decimal numeral of `n`.
pub fn decimal_bytes(n: u64) -> (r: Vec<u8>)
    ensures
        r@ == decimal_digits(n as nat),
{
    let mut m = n;
    let mut suffix: Vec<u8> = Vec::new();
    while m >= 10
        invariant
            decimal_digits(n as nat) == decimal_digits(m as nat) + suffix@,
        decreases m,
    {
        let d = (48 + m % 10) as u8;
        let ghost old_suffix = suffix@;
        suffix.insert(0, d);
        assert(decimal_digits(m as nat) == decimal_digits((m / 10) as nat).push(d));
        assert(decimal_digits(m as nat) + old_suffix =~= decimal_digits((m / 10) as nat)
            + suffix@);
        m = m / 10;
    }
    let mut r: Vec<u8> = Vec::new();
    r.push((48 + m) as u8);
    let ghost tail = suffix@;
    r.append(&mut suffix);
    assert(r@ =~= decimal_digits(m as nat) + tail);
    r
}

/// Frames `data` as an object's content under a header that gives `size`.
pub fn frame_object(size: u64, data: &[u8]) -> (r: Vec<u8>)
    ensures
        r@ == blob_header(size as nat) + data@,
{
    let mut r: Vec<u8> = vec![98u8, 108u8, 111u8, 98u8, 32u8];
    let mut digits = decimal_bytes(size);
    r.append(&mut digits);
    r.push(0u8);
    let ghost head = r@;
    assert(head =~= blob_header(size as nat));
    let mut i: usize = 0;
    while i < data.len()
        invariant
            i <= data@.len(),
            r@ == head + data@.subrange(0, i as int),
        decreases data@.len() - i,
    {
        r.push(data[i]);
        i = i + 1;
        assert(r@ =~= head + data@.subrange(0, i as int));
    }
    assert(data@.subrange(0, i as int) =~= data@);
    r
}

/// Strips the header from an object's complete content.
pub fn unframe_object(content: &[u8]) -> (r: Result<Vec<u8>, DecodeError>)
    ensures
        match strip_header(content@) {
            Ok(p) => r is Ok && r.unwrap()@ == p,
            Err(e) => r == Err::<Vec<u8>, DecodeError>(e),
        },
{
    let mut decoder = GitObjectReadSync::new();
    let mut out: Vec<u8> = Vec::new();
    let fed = decoder.read(content, &mut out);
    assert(decoder.consumed() =~= content@);
    match fed {
        Err(e) => Err(e),
        Ok(()) => match decoder.finish() {
            Err(e) => Err(e),
            Ok(()) => {
                assert(out@ =~= payload_so_far(content@));
                Ok(out)
            },
        },
    }
}

/// What the zlib stream `b` decompresses to; nothing if it is corrupt.
pub uninterp spec fn zlib_inflated(b: Seq<u8>) -> Option<Seq<u8>>;

/// The zlib stream that `b` compresses to at the fast level; nothing if
/// compression fails.
pub uninterp spec fn zlib_deflated_fast(b: Seq<u8>) -> Option<Seq<u8>>;

/// Relies on flate2::read::ZlibDecoder: read to its end, it yields what the
/// zlib stream in `b` decompresses to, or an error if the stream is corrupt.
#[verifier::external_body]
fn inflate(b: &[u8]) -> (r: Option<Vec<u8>>)
    ensures
        r is Some <==> zlib_inflated(b@) is Some,
        r matches Some(v) ==> v@ == zlib_inflated(b@).unwrap(),
{
    let mut out = Vec::new();
    match std::io::Read::read_to_end(&mut flate2::read::ZlibDecoder::new(b), &mut out) {
        Ok(_) => Some(out),
        Err(_) => None,
    }
}

/// Relies on flate2::read::ZlibEncoder with flate2::Compression::fast():
/// read to its end, it yields the zlib stream of `b`, or an error.
#[verifier::external_body]
fn deflate_fast(b: &[u8]) -> (r: Option<Vec<u8>>)
    ensures
        r is Some <==> zlib_deflated_fast(b@) is Some,
        r matches Some(v) ==> v@ == zlib_deflated_fast(b@).unwrap(),
{
    let mut out = Vec::new();
    let mut encoder = flate2::read::ZlibEncoder::new(b, flate2::Compression::fast());
    match std::io::Read::read_to_end(&mut encoder, &mut out) {
        Ok(_) => Some(out),
        Err(_) => None,
    }
}

/// Decodes a stored object: decompresses it and strips its header.
pub fn decode_sync(data: &[u8]) -> (r: Result<Vec<u8>, DecodeError>)
    ensures
        match zlib_inflated(data@) {
            None => r == Err::<Vec<u8>, DecodeError>(DecodeError::Corrupt),
            Some(content) => match strip_header(content) {
                Ok(p) => r is Ok && r.unwrap()@ == p,
                Err(e) => r == Err::<Vec<u8>, DecodeError>(e),
            },
        },
{
    match inflate(data) {
        None => Err(DecodeError::Corrupt),
        Some(content) => unframe_object(content.as_slice()),
    }
}

/// Encodes `data` as a stored object whose header gives `size`: frames it
/// and compresses it at the fast level. Nothing if compression failed.
pub fn encode_sync(size: u64, data: &[u8]) -> (r: Option<Vec<u8>>)
    ensures
        r is Some <==> zlib_deflated_fast(blob_header(size as nat) + data@) is Some,
        r matches Some(v) ==> v@ == zlib_deflated_fast(blob_header(size as nat) + data@).unwrap(),
{
    let content = frame_object(size, data);
    deflate_fast(content.as_slice())
}

} // verus!
