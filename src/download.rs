//! The decisions of the chunked downloader: which files to fetch, how an
//! object splits into ranged requests, when a request is retried and after
//! how long, and what the run reports. The caller performs the requests and
//! the file work and hands the outcomes back.
use vstd::prelude::*;
use vstd::arithmetic::power2::{lemma2_to64, lemma_pow2_strictly_increases, lemma_pow2_unfold, pow2};
use vstd::string::{StrSliceExecFns, StringExecFns};
use crate::git_index::{overwrite, HASH_SIZE};
use crate::git_object::{decimal_bytes, decimal_digits, is_digit, lemma_decimal_digits};

verus! {

/// The most bytes one ranged request asks for: 16 MiB.
pub const CHUNK_SIZE: u64 = 16777216;

/// The first wait before a request is retried, in milliseconds.
pub const RETRY_WAIT_BASE_MS: u64 = 100;

/// One ranged request of an object: the bytes `[begin, end)`.
#[derive(Clone, Copy, Debug, PartialEq, Eq, Structural)]
pub struct Chunk {
    pub index: u64,
    pub begin: u64,
    pub end: u64,
}

/// How many chunks an object of `len` bytes splits into.
pub open spec fn chunk_count_spec(len: nat) -> nat {
    ((len + CHUNK_SIZE - 1) / CHUNK_SIZE as int) as nat
}

/// The chunk that holds byte `x` of an object.
pub open spec fn chunk_index_of(x: nat) -> nat {
    x / CHUNK_SIZE as nat
}

/// The `i`-th chunk of an object of `len` bytes.
pub open spec fn chunk_spec(len: nat, i: nat) -> Chunk {
    let begin = i * CHUNK_SIZE;
    let end: int = if len < (i + 1) * CHUNK_SIZE { len as int } else { (i + 1) * CHUNK_SIZE };
    Chunk { index: i as u64, begin: begin as u64, end: end as u64 }
}

/// How many chunks an object of `len` bytes splits into.
pub fn chunk_count(len: u64) -> (r: u64)
    ensures
        r == chunk_count_spec(len as nat),
{
    let whole = len / CHUNK_SIZE;
    if len % CHUNK_SIZE == 0 {
        whole
    } else {
        whole + 1
    }
}

/// The `i`-th chunk of an object of `len` bytes.
pub fn chunk_at(len: u64, i: u64) -> (r: Chunk)
    requires
        i < chunk_count_spec(len as nat),
    ensures
        r == chunk_spec(len as nat, i as nat),
{
    let begin = i * CHUNK_SIZE;
    let end = if len - begin > CHUNK_SIZE {
        begin + CHUNK_SIZE
    } else {
        len
    };
    Chunk { index: i, begin, end }
}

/// All chunks of an object of `len` bytes, in order.
pub fn plan_chunks(len: u64) -> (r: Vec<Chunk>)
    ensures
        r@.len() == chunk_count_spec(len as nat),
        forall|i: int| 0 <= i < r@.len() ==> #[trigger] r@[i] == chunk_spec(len as nat, i as nat),
{
    let n = chunk_count(len);
    let mut r: Vec<Chunk> = Vec::new();
    let mut i: u64 = 0;
    while i < n
        invariant
            i <= n,
            n == chunk_count_spec(len as nat),
            r@.len() == i,
            forall|j: int| 0 <= j < i ==> #[trigger] r@[j] == chunk_spec(len as nat, j as nat),
        decreases n - i,
    {
        r.push(chunk_at(len, i));
        i = i + 1;
    }
    r
}

/// The chunks of an object partition its bytes: each chunk is a non-empty
/// range of at most `CHUNK_SIZE` bytes within the object, consecutive chunks
/// meet, the first starts at 0, the last ends at the object's end, no two
/// overlap, and every byte lies in exactly one of them.
pub proof fn lemma_chunks_partition(len: nat)
    requires
        len <= u64::MAX,
    ensures
        forall|i: nat|
            i < chunk_count_spec(len) ==> {
                let c = #[trigger] chunk_spec(len, i);
                &&& c.index == i
                &&& c.begin < c.end <= len
                &&& c.end - c.begin <= CHUNK_SIZE
            },
        len > 0 ==> chunk_spec(len, 0).begin == 0,
        len > 0 ==> chunk_spec(len, (chunk_count_spec(len) - 1) as nat).end == len,
        forall|i: nat|
            i + 1 < chunk_count_spec(len) ==> (#[trigger] chunk_spec(len, i)).end == chunk_spec(
                len,
                i + 1,
            ).begin,
        forall|i: nat, j: nat|
            i < j < chunk_count_spec(len) ==> (#[trigger] chunk_spec(len, i)).end <= (
            #[trigger] chunk_spec(len, j)).begin,
        forall|x: nat|
            x < len ==> {
                let i = #[trigger] chunk_index_of(x);
                &&& i < chunk_count_spec(len)
                &&& chunk_spec(len, i).begin <= x < chunk_spec(len, i).end
            },
{
    let n = chunk_count_spec(len);
    assert forall|i: nat| i < n implies {
        let c = #[trigger] chunk_spec(len, i);
        &&& c.index == i
        &&& c.begin < c.end <= len
        &&& c.end - c.begin <= CHUNK_SIZE
    } by {
        assert(i * CHUNK_SIZE < len) by (nonlinear_arith)
            requires
                i < n,
                n == (len + CHUNK_SIZE - 1) / CHUNK_SIZE as int,
        ;
    }
    if len > 0 {
        assert((n - 1) * CHUNK_SIZE < len && len <= n * CHUNK_SIZE) by (nonlinear_arith)
            requires
                len > 0,
                n == (len + CHUNK_SIZE - 1) / CHUNK_SIZE as int,
        ;
    }
    assert forall|i: nat, j: nat| i < j < n implies (#[trigger] chunk_spec(len, i)).end <= (
    #[trigger] chunk_spec(len, j)).begin by {
        assert((i + 1) * CHUNK_SIZE <= j * CHUNK_SIZE) by (nonlinear_arith)
            requires
                i < j,
        ;
    }
    assert forall|x: nat| x < len implies {
        let i = #[trigger] chunk_index_of(x);
        &&& i < n
        &&& chunk_spec(len, i).begin <= x < chunk_spec(len, i).end
    } by {
        let i = x / CHUNK_SIZE as nat;
        assert(i * CHUNK_SIZE <= x < (i + 1) * CHUNK_SIZE && i < n) by (nonlinear_arith)
            requires
                x < len,
                i == x / CHUNK_SIZE as nat,
                n == (len + CHUNK_SIZE - 1) / CHUNK_SIZE as int,
        ;
    }
}

/// A staging buffer after the server's bytes `full` were written into the
/// windows of the chunks listed in `order`, one chunk after the other.
pub open spec fn staged(buf: Seq<u8>, full: Seq<u8>, order: Seq<nat>) -> Seq<u8>
    decreases order.len(),
{
    if order.len() == 0 {
        buf
    } else {
        let c = chunk_spec(full.len(), order.last());
        overwrite(
            staged(buf, full, order.drop_last()),
            c.begin as int,
            full.subrange(c.begin as int, c.end as int),
        )
    }
}

/// Byte `x` lies in the window of chunk `i` exactly when `i` is the chunk
/// that holds `x`.
proof fn lemma_in_window(len: nat, i: nat, x: int)
    requires
        len <= u64::MAX,
        i < chunk_count_spec(len),
        0 <= x < len,
    ensures
        (chunk_spec(len, i).begin <= x < chunk_spec(len, i).end) <==> chunk_index_of(x as nat) == i,
{
    let q = chunk_index_of(x as nat);
    assert(q * CHUNK_SIZE <= x < (q + 1) * CHUNK_SIZE) by (nonlinear_arith)
        requires
            q == x / CHUNK_SIZE as int,
            x >= 0,
    ;
    assert(i * CHUNK_SIZE < len) by (nonlinear_arith)
        requires
            i < chunk_count_spec(len),
            chunk_count_spec(len) == (len + CHUNK_SIZE - 1) / CHUNK_SIZE as int,
    ;
    if i < q {
        assert((i + 1) * CHUNK_SIZE <= q * CHUNK_SIZE) by (nonlinear_arith)
            requires
                i < q,
        ;
    } else if i > q {
        assert((q + 1) * CHUNK_SIZE <= i * CHUNK_SIZE) by (nonlinear_arith)
            requires
                q < i,
        ;
    }
}

/// A chunk's window is a non-empty range within the object.
proof fn lemma_chunk_bounds(len: nat, i: nat)
    requires
        len <= u64::MAX,
        i < chunk_count_spec(len),
    ensures
        chunk_spec(len, i).begin < chunk_spec(len, i).end <= len,
        chunk_spec(len, i).begin == i * CHUNK_SIZE,
{
    assert(i * CHUNK_SIZE < len) by (nonlinear_arith)
        requires
            i < chunk_count_spec(len),
            chunk_count_spec(len) == (len + CHUNK_SIZE - 1) / CHUNK_SIZE as int,
    ;
}

/// Staging keeps the buffer's length.
proof fn lemma_staged_len(buf: Seq<u8>, full: Seq<u8>, order: Seq<nat>)
    requires
        buf.len() == full.len(),
        full.len() <= u64::MAX,
        forall|k: int| 0 <= k < order.len() ==> #[trigger] order[k] < chunk_count_spec(full.len()),
    ensures
        staged(buf, full, order).len() == full.len(),
    decreases order.len(),
{
    if order.len() > 0 {
        lemma_staged_len(buf, full, order.drop_last());
        lemma_chunk_bounds(full.len(), order.last());
    }
}

/// After the writes of `order`, byte `x` holds the server's byte if its
/// chunk was written, and its old value otherwise.
proof fn lemma_staged_byte(buf: Seq<u8>, full: Seq<u8>, order: Seq<nat>, x: int)
    requires
        buf.len() == full.len(),
        full.len() <= u64::MAX,
        forall|k: int| 0 <= k < order.len() ==> #[trigger] order[k] < chunk_count_spec(full.len()),
        0 <= x < full.len(),
    ensures
        staged(buf, full, order)[x] == if order.contains(chunk_index_of(x as nat)) {
            full[x]
        } else {
            buf[x]
        },
    decreases order.len(),
{
    if order.len() > 0 {
        let rest = order.drop_last();
        let last = order.last();
        lemma_staged_byte(buf, full, rest, x);
        lemma_staged_len(buf, full, rest);
        lemma_chunk_bounds(full.len(), last);
        lemma_in_window(full.len(), last, x);
        let c = chunk_spec(full.len(), last);
        let q = chunk_index_of(x as nat);
        let before = staged(buf, full, rest);
        let after = staged(buf, full, order);
        if c.begin <= x < c.end {
            assert(after[x] == full[x]);
            assert(order[order.len() - 1] == q);
        } else {
            assert(after[x] == before[x]);
            if order.contains(q) {
                let k = choose|k: int| 0 <= k < order.len() && order[k] == q;
                assert(k < order.len() - 1);
                assert(rest[k] == q);
            }
            if rest.contains(q) {
                let k = choose|k: int| 0 <= k < rest.len() && rest[k] == q;
                assert(order[k] == q);
            }
        }
    }
}

/// Once every chunk of an object has been written into its window of a
/// staging buffer of the object's size, in any order, the buffer holds
/// exactly the bytes that a single request for the whole object returns.
pub proof fn lemma_staging_exact(buf: Seq<u8>, full: Seq<u8>, order: Seq<nat>)
    requires
        buf.len() == full.len(),
        full.len() <= u64::MAX,
        forall|k: int| 0 <= k < order.len() ==> #[trigger] order[k] < chunk_count_spec(full.len()),
        forall|i: nat| i < chunk_count_spec(full.len()) ==> #[trigger] order.contains(i),
    ensures
        staged(buf, full, order) == full,
{
    lemma_staged_len(buf, full, order);
    assert forall|x: int| 0 <= x < full.len() implies #[trigger] staged(buf, full, order)[x]
        == full[x] by {
        lemma_staged_byte(buf, full, order, x);
        let q = chunk_index_of(x as nat);
        assert(q < chunk_count_spec(full.len())) by (nonlinear_arith)
            requires
                q == x / CHUNK_SIZE as int,
                0 <= x < full.len(),
                chunk_count_spec(full.len()) == (full.len() + CHUNK_SIZE - 1) / CHUNK_SIZE as int,
        ;
        assert(order.contains(q));
    }
    assert(staged(buf, full, order) =~= full);
}

/// Why a chunk's response was refused.
#[derive(Clone, Copy, Debug, PartialEq, Eq, Structural)]
pub enum ChunkError {
    /// The body's length differs from the chunk's window.
    LengthMismatch,
}

/// Checks that a response body of `body_len` bytes fills the chunk's window
/// exactly; a body of another length must not be written into it.
pub fn check_body(chunk: &Chunk, body_len: usize) -> (r: Result<(), ChunkError>)
    requires
        chunk.begin <= chunk.end,
    ensures
        r is Ok <==> body_len == chunk.end - chunk.begin,
{
    if body_len as u64 == chunk.end - chunk.begin {
        Ok(())
    } else {
        Err(ChunkError::LengthMismatch)
    }
}

/// The wait before retry number `retry` (counted from 0), in milliseconds:
/// the base wait doubled `retry` times, capped at the largest `u64`.
pub open spec fn backoff_spec(retry: nat) -> nat {
    let d = RETRY_WAIT_BASE_MS * pow2(retry);
    if d > u64::MAX {
        u64::MAX as nat
    } else {
        d as nat
    }
}

/// The wait before retry number `retry`, in milliseconds.
pub fn backoff_ms(retry: u32) -> (r: u64)
    ensures
        r == backoff_spec(retry as nat),
{
    proof {
        lemma2_to64();
    }
    let mut d: u64 = RETRY_WAIT_BASE_MS;
    let mut k: u32 = 0;
    while k < retry
        invariant
            k <= retry,
            d == RETRY_WAIT_BASE_MS * pow2(k as nat),
        decreases retry - k,
    {
        proof {
            lemma_pow2_unfold((k + 1) as nat);
        }
        if d > u64::MAX / 2 {
            proof {
                if k + 1 < retry {
                    lemma_pow2_strictly_increases((k + 1) as nat, retry as nat);
                }
            }
            return u64::MAX;
        }
        d = d * 2;
        k = k + 1;
    }
    d
}

/// The HTTP status of a response to a ranged request that is accepted.
pub const PARTIAL_CONTENT: u16 = 206;

/// What came back for one ranged request.
#[derive(Clone, Copy, Debug, PartialEq, Eq, Structural)]
pub enum Response {
    /// The request failed before a status arrived.
    TransportError,
    /// A response with this status arrived.
    Status(u16),
}

/// What a chunk task does next.
#[derive(Clone, Copy, Debug, PartialEq, Eq, Structural)]
pub enum ChunkStep {
    /// Wait this many milliseconds, then send the request again.
    Retry { delay_ms: u64 },
    /// Read the body and write it into the chunk's window.
    Accept,
}

/// The retry count and next step after `response`, with `retry` retries
/// made so far. Only a partial-content response is accepted; anything else,
/// a full 200 response included, is retried, without end.
pub open spec fn step_spec(retry: u32, response: Response) -> (u32, ChunkStep) {
    if response == Response::Status(PARTIAL_CONTENT) {
        (retry, ChunkStep::Accept)
    } else {
        (
            if retry < u32::MAX { (retry + 1) as u32 } else { retry },
            ChunkStep::Retry { delay_ms: backoff_spec(retry as nat) as u64 },
        )
    }
}

/// The retry state of one chunk task.
pub struct ChunkRetry {
    /// Retries made so far.
    pub retry: u32,
}

impl ChunkRetry {
    /// A chunk task that has not retried yet.
    pub fn new() -> (r: ChunkRetry)
        ensures
            r.retry == 0,
    {
        ChunkRetry { retry: 0 }
    }

    /// Decides what to do after `response`.
    pub fn next_step(&mut self, response: Response) -> (r: ChunkStep)
        ensures
            (final(self).retry, r) == step_spec(old(self).retry, response),
    {
        match response {
            Response::Status(status) if status == PARTIAL_CONTENT => ChunkStep::Accept,
            _ => {
                let delay_ms = backoff_ms(self.retry);
                if self.retry < u32::MAX {
                    self.retry = self.retry + 1;
                }
                ChunkStep::Retry { delay_ms }
            },
        }
    }
}

/// The steps a chunk task takes for a run of responses, from `retry`
/// retries made.
pub open spec fn run_steps(retry: u32, responses: Seq<Response>) -> Seq<ChunkStep>
    decreases responses.len(),
{
    if responses.len() == 0 {
        Seq::empty()
    } else {
        let (next, step) = step_spec(retry, responses[0]);
        seq![step] + run_steps(next, responses.drop_first())
    }
}

/// `k` responses that are not partial content, then one that is.
pub open spec fn failures_then_success(k: nat, failure: Response) -> Seq<Response> {
    Seq::new(k, |i: int| failure).push(Response::Status(PARTIAL_CONTENT))
}

/// Retries after failures wait `T0, 2*T0, 4*T0, ...` (capped at the largest
/// `u64`), and the first partial-content response is accepted.
pub proof fn lemma_retry_then_accept(start: u32, k: nat, failure: Response)
    requires
        start + k <= u32::MAX,
        failure != Response::Status(PARTIAL_CONTENT),
    ensures
        run_steps(start, failures_then_success(k, failure)).len() == k + 1,
        forall|i: int|
            0 <= i < k ==> #[trigger] run_steps(start, failures_then_success(k, failure))[i]
                == (ChunkStep::Retry { delay_ms: backoff_spec((start + i) as nat) as u64 }),
        run_steps(start, failures_then_success(k, failure))[k as int] == ChunkStep::Accept,
    decreases k,
{
    let rs = failures_then_success(k, failure);
    if k == 0 {
        assert(rs.drop_first() =~= Seq::<Response>::empty());
        assert(rs[0] == Response::Status(PARTIAL_CONTENT));
        assert(run_steps(start, rs.drop_first()) =~= Seq::<ChunkStep>::empty());
        assert(run_steps(start, rs) =~= seq![ChunkStep::Accept]);
    } else {
        assert(rs.drop_first() =~= failures_then_success((k - 1) as nat, failure));
        assert(rs[0] == failure);
        lemma_retry_then_accept((start + 1) as u32, (k - 1) as nat, failure);
        let rest = run_steps((start + 1) as u32, rs.drop_first());
        assert(run_steps(start, rs) == seq![
            ChunkStep::Retry { delay_ms: backoff_spec(start as nat) as u64 },
        ] + rest);
        assert forall|i: int| 0 <= i < k implies #[trigger] run_steps(start, rs)[i] == (
        ChunkStep::Retry { delay_ms: backoff_spec((start + i) as nat) as u64 }) by {
            if i > 0 {
                assert(run_steps(start, rs)[i] == rest[i - 1]);
            }
        }
    }
}

/// Without the cap, each wait is the base wait times a power of two.
pub proof fn lemma_backoff_doubles(retry: nat)
    requires
        RETRY_WAIT_BASE_MS * pow2(retry + 1) <= u64::MAX,
    ensures
        backoff_spec(retry) == RETRY_WAIT_BASE_MS * pow2(retry),
        backoff_spec(retry + 1) == 2 * backoff_spec(retry),
{
    lemma_pow2_unfold(retry + 1);
}

/// The decimal numeral of `n`, as text.
pub open spec fn decimal_text(n: nat) -> Seq<char> {
    decimal_digits(n).map_values(|b: u8| b as char)
}

/// The one-character text of a decimal digit.
fn digit_str(d: u8) -> (r: &'static str)
    requires
        is_digit(d),
    ensures
        r@ == seq![d as char],
{
    if d == 48 {
        proof {
            reveal_strlit("0");
        }
        "0"
    } else if d == 49 {
        proof {
            reveal_strlit("1");
        }
        "1"
    } else if d == 50 {
        proof {
            reveal_strlit("2");
        }
        "2"
    } else if d == 51 {
        proof {
            reveal_strlit("3");
        }
        "3"
    } else if d == 52 {
        proof {
            reveal_strlit("4");
        }
        "4"
    } else if d == 53 {
        proof {
            reveal_strlit("5");
        }
        "5"
    } else if d == 54 {
        proof {
            reveal_strlit("6");
        }
        "6"
    } else if d == 55 {
        proof {
            reveal_strlit("7");
        }
        "7"
    } else if d == 56 {
        proof {
            reveal_strlit("8");
        }
        "8"
    } else {
        proof {
            reveal_strlit("9");
        }
        "9"
    }
}

/// Appends the decimal numeral of `n` to `s`.
pub fn push_decimal(s: &mut String, n: u64)
    ensures
        final(s)@ == old(s)@ + decimal_text(n as nat),
{
    let digits = decimal_bytes(n);
    proof {
        lemma_decimal_digits(n as nat);
    }
    let mut i: usize = 0;
    while i < digits.len()
        invariant
            i <= digits@.len(),
            digits@ == decimal_digits(n as nat),
            forall|j: int| 0 <= j < digits@.len() ==> is_digit(#[trigger] digits@[j]),
            s@ == old(s)@ + decimal_text(n as nat).subrange(0, i as int),
        decreases digits@.len() - i,
    {
        s.append(digit_str(digits[i]));
        i = i + 1;
        assert(s@ =~= old(s)@ + decimal_text(n as nat).subrange(0, i as int));
    }
    assert(decimal_text(n as nat).subrange(0, i as int) =~= decimal_text(n as nat));
}

/// The value of the `Range` header that asks for a chunk's bytes:
/// `bytes=<first>-<last>`, both ends included.
pub fn range_header(chunk: &Chunk) -> (r: String)
    requires
        chunk.begin < chunk.end,
    ensures
        r@ == "bytes="@ + decimal_text(chunk.begin as nat) + "-"@ + decimal_text(
            (chunk.end - 1) as nat,
        ),
{
    let mut r = String::from_str("bytes=");
    push_decimal(&mut r, chunk.begin);
    r.append("-");
    push_decimal(&mut r, chunk.end - 1);
    r
}

/// The lowercase hexadecimal digit for `v`, which is below 16.
pub open spec fn hex_digit(v: int) -> char {
    if v < 10 {
        ((48 + v) as u8) as char
    } else {
        ((87 + v) as u8) as char
    }
}

/// `b` in lowercase hexadecimal, two digits per byte.
pub open spec fn hex_text(b: Seq<u8>) -> Seq<char>
    decreases b.len(),
{
    if b.len() == 0 {
        Seq::empty()
    } else {
        hex_text(b.drop_last()) + seq![hex_digit(b.last() as int / 16), hex_digit(b.last() as int % 16)]
    }
}

/// Hexadecimal text has two digits per byte.
pub proof fn lemma_hex_text_len(b: Seq<u8>)
    ensures
        hex_text(b).len() == 2 * b.len(),
    decreases b.len(),
{
    if b.len() > 0 {
        lemma_hex_text_len(b.drop_last());
    }
}

/// Relies on hex::encode: two lowercase hexadecimal digits for each byte,
/// in order.
#[verifier::external_body]
fn hex_lower(b: &[u8]) -> (r: String)
    ensures
        r@ == hex_text(b@),
{
    hex::encode(b)
}

/// Where the objects of the content delivery network are published.
pub const OBJECTS_BASE: &'static str = "http://la.cdn.gameon.jp/la/patch/objects/";

/// The address of the object with hash `hash`: the base, the first two hex
/// digits, a slash, and the other digits.
pub open spec fn object_url(hash: Seq<u8>) -> Seq<char> {
    let h = hex_text(hash);
    OBJECTS_BASE@ + h.subrange(0, 2) + "/"@ + h.subrange(2, h.len() as int)
}

/// The address of the object with hash `hash`.
pub fn url_for_hash(hash: &[u8]) -> (r: String)
    requires
        hash@.len() == HASH_SIZE,
    ensures
        r@ == object_url(hash@),
{
    let hex = hex_lower(hash);
    proof {
        lemma_hex_text_len(hash@);
    }
    let digits = hex.as_str();
    let mut url = String::from_str(OBJECTS_BASE);
    url.append(digits.substring_char(0, 2));
    url.append("/");
    url.append(digits.substring_char(2, digits.unicode_len()));
    url
}

} // verus!
