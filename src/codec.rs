//! The wire protocol: typed replies and their bytes, requests and their framing.
use vstd::prelude::*;
use vstd::utf8::{encode_utf8, valid_utf8};

verus! {

/// A reply to one request.
pub enum Reply {
    SimpleString(String),
    Error(String),
    Integer(i64),
    BulkString(Option<String>),
    Array(Option<Vec<Reply>>),
}

pub open spec fn crlf() -> Seq<u8> {
    seq![13u8, 10u8]
}

/// Decimal digits of a natural number as ASCII bytes, no leading zeros.
pub open spec fn num_bytes(n: nat) -> Seq<u8>
    decreases n,
{
    if n < 10 {
        seq![(48 + n) as u8]
    } else {
        num_bytes(n / 10).push((48 + n % 10) as u8)
    }
}

/// Decimal digits of an integer as ASCII bytes, `-` first when negative.
pub open spec fn int_bytes(n: int) -> Seq<u8> {
    if n < 0 {
        seq![45u8] + num_bytes((-n) as nat)
    } else {
        num_bytes(n as nat)
    }
}

/// A length-prefixed string: `$<len>\r\n<bytes>\r\n`.
pub open spec fn bulk_bytes(s: Seq<char>) -> Seq<u8> {
    seq![36u8] + num_bytes(encode_utf8(s).len()) + crlf() + encode_utf8(s) + crlf()
}

/// The bytes of a reply.
pub open spec fn reply_bytes(r: Reply) -> Seq<u8>
    decreases r, 1nat,
{
    match r {
        Reply::SimpleString(s) => seq![43u8] + encode_utf8(s@) + crlf(),
        Reply::Error(s) => seq![45u8] + encode_utf8(s@) + crlf(),
        Reply::Integer(n) => seq![58u8] + int_bytes(n as int) + crlf(),
        Reply::BulkString(None) => seq![36u8, 45u8, 49u8] + crlf(),
        Reply::BulkString(Some(s)) => bulk_bytes(s@),
        Reply::Array(None) => seq![42u8, 45u8, 49u8] + crlf(),
        Reply::Array(Some(v)) => seq![42u8] + num_bytes(v@.len()) + crlf() + items_bytes(r, v@.len() as int),
    }
}

/// The bytes of the first `n` items of array reply `r`, one after another.
pub open spec fn items_bytes(r: Reply, n: int) -> Seq<u8>
    decreases r, 0nat, n,
{
    match r {
        Reply::Array(Some(v)) => if 0 < n <= v@.len() {
            items_bytes(r, n - 1) + reply_bytes(v@[n - 1])
        } else {
            Seq::empty()
        },
        _ => Seq::empty(),
    }
}

/// The views of a list of strings.
pub open spec fn texts(v: Seq<String>) -> Seq<Seq<char>> {
    v.map_values(|s: String| s@)
}

/// The bulk strings of a list of arguments, one after another.
pub open spec fn args_bytes(args: Seq<Seq<char>>) -> Seq<u8>
    decreases args.len(),
{
    if args.len() == 0 {
        Seq::empty()
    } else {
        args_bytes(args.drop_last()) + bulk_bytes(args.last())
    }
}

/// A request as it travels: `*<count>\r\n` and then each argument as a bulk string.
pub open spec fn request_bytes(args: Seq<Seq<char>>) -> Seq<u8> {
    seq![42u8] + num_bytes(args.len()) + crlf() + args_bytes(args)
}

fn push_slice(out: &mut Vec<u8>, b: &[u8])
    ensures
        final(out)@ == old(out)@ + b@,
{
    let mut i: usize = 0;
    let ghost start = out@;
    while i < b.len()
        invariant
            i <= b@.len(),
            out@ == start + b@.subrange(0, i as int),
        decreases b@.len() - i,
    {
        out.push(b[i]);
        assert(b@.subrange(0, i + 1) =~= b@.subrange(0, i as int).push(b@[i as int]));
        i = i + 1;
    }
    assert(b@.subrange(0, i as int) =~= b@);
}

fn push_crlf(out: &mut Vec<u8>)
    ensures
        final(out)@ == old(out)@ + crlf(),
{
    out.push(13u8);
    out.push(10u8);
    assert(out@ =~= old(out)@ + crlf());
}

fn push_text(out: &mut Vec<u8>, s: &str)
    ensures
        final(out)@ == old(out)@ + encode_utf8(s@),
{
    push_slice(out, s.as_bytes());
}

fn push_num(out: &mut Vec<u8>, n: u64)
    ensures
        final(out)@ == old(out)@ + num_bytes(n as nat),
    decreases n,
{
    if n < 10 {
        out.push((48 + n) as u8);
        assert(out@ =~= old(out)@ + num_bytes(n as nat));
    } else {
        push_num(out, n / 10);
        out.push((48 + n % 10) as u8);
        assert(out@ =~= old(out)@ + num_bytes(n as nat));
    }
}

fn push_int(out: &mut Vec<u8>, n: i64)
    ensures
        final(out)@ == old(out)@ + int_bytes(n as int),
{
    if n < 0 {
        out.push(45u8);
        let m: u64 = if n == i64::MIN {
            9223372036854775808u64
        } else {
            (-n) as u64
        };
        push_num(out, m);
        assert(out@ =~= old(out)@ + int_bytes(n as int));
    } else {
        push_num(out, n as u64);
    }
}

fn push_bulk(out: &mut Vec<u8>, s: &String)
    ensures
        final(out)@ == old(out)@ + bulk_bytes(s@),
{
    let b = s.as_str().as_bytes();
    out.push(36u8);
    push_num(out, b.len() as u64);
    push_crlf(out);
    push_slice(out, b);
    push_crlf(out);
    assert(out@ =~= old(out)@ + bulk_bytes(s@));
}

fn encode_into(r: &Reply, out: &mut Vec<u8>)
    ensures
        final(out)@ == old(out)@ + reply_bytes(*r),
    decreases r,
{
    match r {
        Reply::SimpleString(s) => {
            out.push(43u8);
            push_text(out, s.as_str());
            push_crlf(out);
        },
        Reply::Error(s) => {
            out.push(45u8);
            push_text(out, s.as_str());
            push_crlf(out);
        },
        Reply::Integer(n) => {
            out.push(58u8);
            push_int(out, *n);
            push_crlf(out);
        },
        Reply::BulkString(None) => {
            out.push(36u8);
            out.push(45u8);
            out.push(49u8);
            push_crlf(out);
        },
        Reply::BulkString(Some(s)) => {
            push_bulk(out, s);
        },
        Reply::Array(None) => {
            out.push(42u8);
            out.push(45u8);
            out.push(49u8);
            push_crlf(out);
        },
        Reply::Array(Some(v)) => {
            out.push(42u8);
            push_num(out, v.len() as u64);
            push_crlf(out);
            let ghost head = out@;
            let mut i: usize = 0;
            while i < v.len()
                invariant
                    i <= v@.len(),
                    *r == Reply::Array(Some(*v)),
                    out@ == head + items_bytes(*r, i as int),
                decreases v@.len() - i,
            {
                proof {
                    vstd::std_specs::vec::axiom_vec_index_decreases(*v, i as int);
                    let ghost o = Some(*v);
                    assert(decreases_to!(*r => o));
                    assert(decreases_to!(o => *v));
                    assert(decreases_to!(*r => v@[i as int]));
                }
                encode_into(&v[i], out);
                assert(items_bytes(*r, i + 1) == items_bytes(*r, i as int) + reply_bytes(v@[i as int]));
                i = i + 1;
            }
        },
    }
    assert(out@ =~= old(out)@ + reply_bytes(*r));
}

/// The bytes of a reply on the wire.
pub fn encode(r: &Reply) -> (b: Vec<u8>)
    ensures
        b@ == reply_bytes(*r),
{
    let mut b: Vec<u8> = Vec::new();
    encode_into(r, &mut b);
    assert(b@ =~= reply_bytes(*r));
    b
}

/// The bytes of a request made of `args`, the command name first.
pub fn encode_request(args: &Vec<String>) -> (b: Vec<u8>)
    ensures
        b@ == request_bytes(texts(args@)),
{
    let mut b: Vec<u8> = Vec::new();
    b.push(42u8);
    push_num(&mut b, args.len() as u64);
    push_crlf(&mut b);
    let ghost head = b@;
    let mut i: usize = 0;
    while i < args.len()
        invariant
            i <= args@.len(),
            b@ == head + args_bytes(texts(args@.subrange(0, i as int))),
        decreases args@.len() - i,
    {
        push_bulk(&mut b, &args[i]);
        assert(texts(args@.subrange(0, i + 1)).drop_last() =~= texts(args@.subrange(0, i as int)));
        i = i + 1;
    }
    assert(args@.subrange(0, i as int) =~= args@);
    assert(b@ =~= request_bytes(texts(args@)));
    b
}

/// The longest decimal length field that a request may carry.
pub const MAX_DIGITS: usize = 18;

pub open spec fn is_digit_byte(b: u8) -> bool {
    48 <= b && b <= 57
}

pub open spec fn pow10(n: nat) -> nat
    decreases n,
{
    if n == 0 {
        1
    } else {
        10 * pow10((n - 1) as nat)
    }
}

/// The number that a run of ASCII digits writes.
pub open spec fn bytes_value(s: Seq<u8>) -> nat
    decreases s.len(),
{
    if s.len() == 0 {
        0
    } else {
        (bytes_value(s.drop_last()) * 10 + (s.last() - 48)) as nat
    }
}

/// How many digits follow one another from `pos` on.
pub open spec fn digit_run(b: Seq<u8>, pos: int) -> nat
    decreases b.len() - pos,
{
    if 0 <= pos < b.len() && is_digit_byte(b[pos]) {
        1 + digit_run(b, pos + 1)
    } else {
        0
    }
}

/// What reading a framing element from a buffer gives: a value and the
/// position after it, a need for more bytes, or malformed bytes.
pub enum Framing<T> {
    Done(T, int),
    More,
    Bad,
}

/// Reads a decimal field ended by CRLF at `pos`: at least one and at most
/// `MAX_DIGITS` digits, no leading zero.
pub open spec fn number_at(b: Seq<u8>, pos: int) -> Framing<nat> {
    let j = digit_run(b, pos);
    if j > MAX_DIGITS {
        Framing::Bad
    } else if pos + j >= b.len() {
        Framing::More
    } else if j == 0 || b[pos + j] != 13 || (j > 1 && b[pos] == 48) {
        Framing::Bad
    } else if pos + j + 1 >= b.len() {
        Framing::More
    } else if b[pos + j + 1] != 10 {
        Framing::Bad
    } else {
        Framing::Done(bytes_value(b.subrange(pos, pos + j)), pos + j + 2)
    }
}

/// Reads `count` more bulk strings from `pos`, after the ones in `acc`.
pub open spec fn items_at(b: Seq<u8>, pos: int, count: nat, acc: Seq<Seq<u8>>) -> Framing<Seq<Seq<u8>>>
    decreases count,
{
    if count == 0 {
        Framing::Done(acc, pos)
    } else if pos >= b.len() {
        Framing::More
    } else if b[pos] != 36 {
        Framing::Bad
    } else {
        match number_at(b, pos + 1) {
            Framing::Done(l, p) => if p + l >= b.len() {
                Framing::More
            } else if b[p + l] != 13 {
                Framing::Bad
            } else if p + l + 1 >= b.len() {
                Framing::More
            } else if b[p + l + 1] != 10 {
                Framing::Bad
            } else {
                items_at(b, p + l + 2, (count - 1) as nat, acc.push(b.subrange(p, p + l)))
            },
            Framing::More => Framing::More,
            Framing::Bad => Framing::Bad,
        }
    }
}

/// The framing of the request at the start of `b`: its bulk strings and its
/// length, or that more bytes are needed, or that the bytes are malformed.
pub open spec fn request_at(b: Seq<u8>) -> Framing<Seq<Seq<u8>>> {
    if b.len() == 0 {
        Framing::More
    } else if b[0] != 42 {
        Framing::Bad
    } else {
        match number_at(b, 1) {
            Framing::Done(n, p) => items_at(b, p, n, Seq::empty()),
            Framing::More => Framing::More,
            Framing::Bad => Framing::Bad,
        }
    }
}

proof fn lemma_bytes_value_bound(s: Seq<u8>)
    requires
        forall|i: int| 0 <= i < s.len() ==> is_digit_byte(#[trigger] s[i]),
    ensures
        bytes_value(s) < pow10(s.len()),
    decreases s.len(),
{
    if s.len() > 0 {
        let t = s.drop_last();
        assert forall|i: int| 0 <= i < t.len() implies is_digit_byte(#[trigger] t[i]) by {
            assert(t[i] == s[i]);
        }
        lemma_bytes_value_bound(t);
        let v = bytes_value(t);
        let d = s.last() - 48;
        let p = pow10(t.len());
        assert(d <= 9);
        assert(v * 10 + d < 10 * p) by (nonlinear_arith)
            requires v < p, d <= 9;
    }
}

proof fn lemma_digit_run(b: Seq<u8>, pos: int, j: int)
    requires
        0 <= pos,
        0 <= j,
        pos + j <= b.len(),
        forall|x: int| pos <= x < pos + j ==> is_digit_byte(#[trigger] b[x]),
        pos + j == b.len() || !is_digit_byte(b[pos + j]),
    ensures
        digit_run(b, pos) == j,
    decreases j,
{
    if j > 0 {
        lemma_digit_run(b, pos + 1, j - 1);
    }
}

/// The outcome of scanning a decimal field.
enum Scan {
    Got(u64, usize),
    Short,
    Malformed,
}

spec fn scan_agrees(r: Scan, f: Framing<nat>) -> bool {
    match r {
        Scan::Got(v, p) => f == Framing::Done(v as nat, p as int),
        Scan::Short => f is More,
        Scan::Malformed => f is Bad,
    }
}

fn scan_number(b: &[u8], pos: usize) -> (r: Scan)
    requires
        pos <= b@.len(),
    ensures
        scan_agrees(r, number_at(b@, pos as int)),
        r matches Scan::Got(v, p) ==> p <= b@.len() && v < pow10(MAX_DIGITS as nat),
{
    let n = b.len();
    let mut j: usize = 0;
    let mut v: u64 = 0;
    proof {
        reveal_with_fuel(pow10, 20);
    }
    while j <= MAX_DIGITS && pos + j < n && 48 <= b[pos + j] && b[pos + j] <= 57
        invariant
            n == b@.len(),
            pos + j <= n,
            j <= MAX_DIGITS + 1,
            forall|x: int| pos <= x < pos + j ==> is_digit_byte(#[trigger] b@[x]),
            j <= MAX_DIGITS ==> v == bytes_value(b@.subrange(pos as int, pos + j)),
            pow10(18) == 1000000000000000000,
        decreases n - j,
    {
        if j < MAX_DIGITS {
            let ghost sub = b@.subrange(pos as int, pos + j);
            let ghost sub2 = b@.subrange(pos as int, pos + j + 1);
            assert(sub2.drop_last() =~= sub);
            proof {
                assert forall|i: int| 0 <= i < sub.len() implies is_digit_byte(#[trigger] sub[i]) by {
                    assert(sub[i] == b@[pos + i]);
                }
                lemma_bytes_value_bound(sub);
                assert(pow10(j as nat) <= pow10(17)) by {
                    reveal_with_fuel(pow10, 20);
                    lemma_pow10_mono(j as nat, 17);
                }
            }
            v = v * 10 + (b[pos + j] - 48) as u64;
        }
        j = j + 1;
    }
    if j > MAX_DIGITS {
        return Scan::Malformed;
    }
    proof {
        lemma_digit_run(b@, pos as int, j as int);
    }
    if pos + j >= n {
        return Scan::Short;
    }
    if j == 0 || b[pos + j] != 13 || (j > 1 && b[pos] == 48) {
        return Scan::Malformed;
    }
    if pos + j + 1 >= n {
        return Scan::Short;
    }
    if b[pos + j + 1] != 10 {
        return Scan::Malformed;
    }
    proof {
        let sub = b@.subrange(pos as int, pos + j);
        assert forall|i: int| 0 <= i < sub.len() implies is_digit_byte(#[trigger] sub[i]) by {
            assert(sub[i] == b@[pos + i]);
        }
        lemma_bytes_value_bound(sub);
        lemma_pow10_mono(j as nat, 18);
    }
    Scan::Got(v, pos + j + 2)
}

proof fn lemma_pow10_mono(a: nat, b: nat)
    requires
        a <= b,
    ensures
        pow10(a) <= pow10(b),
    decreases b,
{
    if a < b {
        lemma_pow10_mono(a, (b - 1) as nat);
    }
}

pub open spec fn byte_views(v: Seq<Vec<u8>>) -> Seq<Seq<u8>> {
    v.map_values(|x: Vec<u8>| x@)
}

fn copy_range(b: &[u8], from: usize, to: usize) -> (r: Vec<u8>)
    requires
        from <= to <= b@.len(),
    ensures
        r@ == b@.subrange(from as int, to as int),
{
    let mut r: Vec<u8> = Vec::new();
    let mut i: usize = from;
    while i < to
        invariant
            from <= i <= to,
            to <= b@.len(),
            r@ == b@.subrange(from as int, i as int),
        decreases to - i,
    {
        r.push(b[i]);
        assert(b@.subrange(from as int, i + 1) =~= b@.subrange(from as int, i as int).push(b@[i as int]));
        i = i + 1;
    }
    r
}

enum Frame {
    Items(Vec<Vec<u8>>, usize),
    Short,
    Malformed,
}

fn frame_request(b: &[u8]) -> (r: Frame)
    ensures
        match r {
            Frame::Items(v, e) => request_at(b@) == Framing::Done(byte_views(v@), e as int),
            Frame::Short => request_at(b@) is More,
            Frame::Malformed => request_at(b@) is Bad,
        },
{
    let n = b.len();
    if n == 0 {
        return Frame::Short;
    }
    if b[0] != 42 {
        return Frame::Malformed;
    }
    let (count, start) = match scan_number(b, 1) {
        Scan::Got(c, p) => (c, p),
        Scan::Short => {
            return Frame::Short;
        },
        Scan::Malformed => {
            return Frame::Malformed;
        },
    };
    let mut items: Vec<Vec<u8>> = Vec::new();
    let mut pos: usize = start;
    let mut k: u64 = 0;
    assert(byte_views(items@) =~= Seq::<Seq<u8>>::empty());
    while k < count
        invariant
            n == b@.len(),
            pos <= n,
            k <= count,
            items_at(b@, pos as int, (count - k) as nat, byte_views(items@)) == request_at(b@),
        decreases count - k,
    {
        if pos >= n {
            return Frame::Short;
        }
        if b[pos] != 36 {
            return Frame::Malformed;
        }
        let (l, p) = match scan_number(b, pos + 1) {
            Scan::Got(l, p) => (l, p),
            Scan::Short => {
                return Frame::Short;
            },
            Scan::Malformed => {
                return Frame::Malformed;
            },
        };
        if l >= (n - p) as u64 {
            return Frame::Short;
        }
        let e = p + l as usize;
        if b[e] != 13 {
            return Frame::Malformed;
        }
        if e + 1 >= n {
            return Frame::Short;
        }
        if b[e + 1] != 10 {
            return Frame::Malformed;
        }
        let item = copy_range(b, p, e);
        let ghost before = byte_views(items@);
        items.push(item);
        assert(byte_views(items@) =~= before.push(b@.subrange(p as int, e as int)));
        pos = e + 2;
        k = k + 1;
    }
    Frame::Items(items, pos)
}

/// Whether `b` starts with a request whose arguments are `args`, `n` bytes long.
pub open spec fn decodes_to(b: Seq<u8>, args: Seq<Seq<char>>, n: int) -> bool {
    match request_at(b) {
        Framing::Done(bs, e) => e == n && bs.len() == args.len() && forall|i: int|
            0 <= i < bs.len() ==> bs[i] == encode_utf8(#[trigger] args[i]),
        _ => false,
    }
}

/// Whether the request at the start of `b` has an argument that is not UTF-8.
pub open spec fn has_bad_text(b: Seq<u8>) -> bool {
    match request_at(b) {
        Framing::Done(bs, _) => exists|i: int| 0 <= i < bs.len() && !valid_utf8(#[trigger] bs[i]),
        _ => false,
    }
}

/// Why the start of `b` is no request.
pub open spec fn protocol_error_text(b: Seq<u8>) -> Seq<char> {
    if request_at(b) is Bad {
        "malformed request"@
    } else {
        "argument is not UTF-8"@
    }
}

/// The outcome of decoding the start of a buffer.
pub enum Decoded {
    /// The arguments of a whole request, and how many bytes it took.
    Parsed(Vec<String>, usize),
    /// The buffer holds the start of a request and no more.
    Incomplete,
    /// The bytes are no request; the connection cannot go on.
    ProtocolError(String),
}

/// Relies on String::from_utf8: it accepts exactly the well-formed UTF-8 byte
/// strings, and the text it gives is what those bytes encode.
#[verifier::external_body]
fn text_from_utf8(b: Vec<u8>) -> (r: Option<String>)
    ensures
        r is Some <==> valid_utf8(b@),
        r matches Some(s) ==> encode_utf8(s@) == b@,
{
    String::from_utf8(b).ok()
}

/// Decodes the request at the start of `b`.
pub fn decode(b: &[u8]) -> (r: Decoded)
    ensures
        match r {
            Decoded::Parsed(args, n) => decodes_to(b@, texts(args@), n as int),
            Decoded::Incomplete => request_at(b@) is More,
            Decoded::ProtocolError(msg) => (request_at(b@) is Bad || has_bad_text(b@)) && msg@ == protocol_error_text(b@),
        },
{
    match frame_request(b) {
        Frame::Short => Decoded::Incomplete,
        Frame::Malformed => Decoded::ProtocolError(String::from_str("malformed request")),
        Frame::Items(items, e) => {
            let ghost bs = byte_views(items@);
            let mut args: Vec<String> = Vec::new();
            let mut i: usize = 0;
            while i < items.len()
                invariant
                    i <= items@.len(),
                    bs == byte_views(items@),
                    request_at(b@) == Framing::Done(bs, e as int),
                    args@.len() == i,
                    forall|j: int| 0 <= j < i ==> bs[j] == encode_utf8(#[trigger] args@[j]@),
                decreases items@.len() - i,
            {
                match text_from_utf8(items[i].clone()) {
                    Some(t) => {
                        args.push(t);
                    },
                    None => {
                        assert(bs.len() == items@.len());
                        assert(bs[i as int] == items@[i as int]@);
                        assert(!valid_utf8(bs[i as int]));
                        assert(request_at(b@) == Framing::Done(bs, e as int));
                        assert(has_bad_text(b@)) by {
                            let ghost bb = request_at(b@)->Done_0;
                            assert(bb == bs);
                            assert(0 <= i < bb.len() && !valid_utf8(bb[i as int]));
                        }
                        return Decoded::ProtocolError(String::from_str("argument is not UTF-8"));
                    },
                }
                i = i + 1;
            }
            assert forall|j: int| 0 <= j < bs.len() implies bs[j] == encode_utf8(#[trigger] texts(args@)[j]) by {
                assert(texts(args@)[j] == args@[j]@);
            }
            Decoded::Parsed(args, e)
        },
    }
}

proof fn lemma_num_bytes(n: nat)
    ensures
        num_bytes(n).len() >= 1,
        forall|i: int| 0 <= i < num_bytes(n).len() ==> is_digit_byte(#[trigger] num_bytes(n)[i]),
        bytes_value(num_bytes(n)) == n,
        num_bytes(n).len() > 1 ==> num_bytes(n)[0] != 48,
        n >= 1 ==> num_bytes(n)[0] != 48,
        forall|j: nat| j >= 1 && n < pow10(j) ==> num_bytes(n).len() <= j,
    decreases n,
{
    if n < 10 {
        let s = num_bytes(n);
        assert(s.drop_last() =~= Seq::<u8>::empty());
        assert(bytes_value(Seq::<u8>::empty()) == 0);
        assert(s.last() == (48 + n) as u8);
        assert(bytes_value(s) == n);
    } else {
        lemma_num_bytes(n / 10);
        let s = num_bytes(n);
        let t = num_bytes(n / 10);
        assert(s.drop_last() =~= t);
        assert(s[0] == t[0]);
        assert forall|i: int| 0 <= i < s.len() implies is_digit_byte(#[trigger] s[i]) by {
            if i < t.len() {
                assert(s[i] == t[i]);
            }
        }
        assert forall|j: nat| j >= 1 && n < pow10(j) implies num_bytes(n).len() <= j by {
            let q = pow10((j - 1) as nat);
            assert(n / 10 < q) by (nonlinear_arith)
                requires n < 10 * q;
            if j == 1 {
                assert(pow10(0) == 1);
            }
        }
    }
}

/// A decimal field written as `num_bytes(n)` and CRLF at `pos` reads back as `n`.
proof fn lemma_number_at(b: Seq<u8>, pos: int, n: nat)
    requires
        0 <= pos,
        n < pow10(MAX_DIGITS as nat),
        pos + num_bytes(n).len() + 2 <= b.len(),
        b.subrange(pos, pos + num_bytes(n).len() + 2) == num_bytes(n) + crlf(),
    ensures
        number_at(b, pos) == Framing::Done(n, pos + num_bytes(n).len() + 2),
{
    lemma_num_bytes(n);
    let k = num_bytes(n).len() as int;
    let w = b.subrange(pos, pos + k + 2);
    assert forall|x: int| pos <= x < pos + k implies is_digit_byte(#[trigger] b[x]) by {
        assert(b[x] == w[x - pos]);
        assert(w[x - pos] == num_bytes(n)[x - pos]);
    }
    assert(b[pos + k] == w[k]);
    assert(b[pos + k + 1] == w[k + 1]);
    lemma_digit_run(b, pos, k);
    assert(b.subrange(pos, pos + k) =~= num_bytes(n));
    if k > 1 {
        assert(b[pos] == w[0]);
    }
}

proof fn lemma_args_bytes_front(args: Seq<Seq<char>>)
    requires
        args.len() > 0,
    ensures
        args_bytes(args) == bulk_bytes(args[0]) + args_bytes(args.drop_first()),
    decreases args.len(),
{
    if args.len() == 1 {
        assert(args.drop_last() =~= Seq::<Seq<char>>::empty());
        assert(args.drop_first() =~= Seq::<Seq<char>>::empty());
        assert(args_bytes(args) =~= bulk_bytes(args[0]) + args_bytes(args.drop_first()));
    } else {
        lemma_args_bytes_front(args.drop_last());
        assert(args.drop_last().drop_first() =~= args.drop_first().drop_last());
        assert(args.drop_first().last() == args.last());
        assert(args_bytes(args) =~= bulk_bytes(args[0]) + args_bytes(args.drop_first()));
    }
}

/// Whether every argument is short enough for its length field.
pub open spec fn lengths_fit(args: Seq<Seq<char>>) -> bool {
    forall|i: int| 0 <= i < args.len() ==> encode_utf8(#[trigger] args[i]).len() < pow10(MAX_DIGITS as nat)
}

proof fn lemma_items_at(b: Seq<u8>, pos: int, args: Seq<Seq<char>>, acc: Seq<Seq<u8>>)
    requires
        0 <= pos,
        pos + args_bytes(args).len() <= b.len(),
        b.subrange(pos, pos + args_bytes(args).len()) == args_bytes(args),
        lengths_fit(args),
    ensures
        items_at(b, pos, args.len(), acc) == Framing::Done(
            acc + args.map_values(|s: Seq<char>| encode_utf8(s)),
            pos + args_bytes(args).len(),
        ),
    decreases args.len(),
{
    if args.len() == 0 {
        assert(acc + args.map_values(|s: Seq<char>| encode_utf8(s)) =~= acc);
    } else {
        lemma_args_bytes_front(args);
        let rest = args.drop_first();
        let e = encode_utf8(args[0]);
        let l = e.len();
        let whole = args_bytes(args);
        let bb = bulk_bytes(args[0]);
        let k = num_bytes(l).len() as int;
        assert(bb.len() == 1 + k + 2 + l + 2);
        let w = b.subrange(pos, pos + whole.len());
        assert(b[pos] == w[0]);
        assert(w[0] == bb[0]);
        assert(b.subrange(pos + 1, pos + 1 + k + 2) =~= num_bytes(l) + crlf()) by {
            assert forall|x: int| 0 <= x < k + 2 implies #[trigger] b.subrange(pos + 1, pos + 1 + k + 2)[x] == (num_bytes(l) + crlf())[x] by {
                assert(b[pos + 1 + x] == w[1 + x]);
                assert(w[1 + x] == bb[1 + x]);
            }
        }
        assert(l < pow10(MAX_DIGITS as nat)) by {
            assert(encode_utf8(args[0]).len() < pow10(MAX_DIGITS as nat));
        }
        lemma_number_at(b, pos + 1, l);
        let p = pos + 1 + k + 2;
        assert(b.subrange(p, p + l) =~= e) by {
            assert forall|x: int| 0 <= x < l implies #[trigger] b.subrange(p, p + l)[x] == e[x] by {
                assert(b[p + x] == w[1 + k + 2 + x]);
                assert(w[1 + k + 2 + x] == bb[1 + k + 2 + x]);
            }
        }
        assert(b[p + l] == w[1 + k + 2 + l]);
        assert(w[1 + k + 2 + l] == bb[1 + k + 2 + l]);
        assert(b[p + l + 1] == w[1 + k + 2 + l + 1]);
        assert(w[1 + k + 2 + l + 1] == bb[1 + k + 2 + l + 1]);
        let q = p + l + 2;
        assert(b.subrange(q, q + args_bytes(rest).len()) =~= args_bytes(rest)) by {
            assert forall|x: int| 0 <= x < args_bytes(rest).len() implies #[trigger] b.subrange(q, q + args_bytes(rest).len())[x]
                == args_bytes(rest)[x] by {
                assert(b[q + x] == w[bb.len() + x]);
                assert(w[bb.len() + x] == whole[bb.len() + x]);
            }
        }
        assert(lengths_fit(rest)) by {
            assert forall|i: int| 0 <= i < rest.len() implies encode_utf8(#[trigger] rest[i]).len() < pow10(MAX_DIGITS as nat) by {
                assert(rest[i] == args[i + 1]);
            }
        }
        lemma_items_at(b, q, rest, acc.push(e));
        assert(acc.push(e) + rest.map_values(|s: Seq<char>| encode_utf8(s)) =~= acc + args.map_values(
            |s: Seq<char>| encode_utf8(s),
        ));
    }
}

/// Two texts with the same UTF-8 bytes are the same text.
pub proof fn utf8_is_injective(a: Seq<char>, b: Seq<char>)
    requires
        encode_utf8(a) == encode_utf8(b),
    ensures
        a == b,
{
    vstd::utf8::encode_utf8_decode_utf8(a);
    vstd::utf8::encode_utf8_decode_utf8(b);
}

/// Round trip: the bytes of a request made of `args`, whatever follows them,
/// decode to the UTF-8 bytes of `args`, all well-formed, and the request's
/// length; so `decode` gives back `args` themselves.
pub proof fn request_round_trip(args: Seq<Seq<char>>, rest: Seq<u8>)
    requires
        args.len() < pow10(MAX_DIGITS as nat),
        lengths_fit(args),
    ensures
        decodes_to(request_bytes(args) + rest, args, request_bytes(args).len() as int),
        !has_bad_text(request_bytes(args) + rest),
        forall|out: Seq<Seq<char>>|
            decodes_to(request_bytes(args) + rest, out, request_bytes(args).len() as int) ==> out == args,
{
    let b = request_bytes(args) + rest;
    let n = args.len();
    let k = num_bytes(n).len() as int;
    assert(b[0] == 42u8);
    assert(b.subrange(1, 1 + k + 2) =~= num_bytes(n) + crlf());
    lemma_number_at(b, 1, n);
    let p = 1 + k + 2;
    assert(b.subrange(p, p + args_bytes(args).len()) =~= args_bytes(args));
    lemma_items_at(b, p, args, Seq::empty());
    let bs = args.map_values(|s: Seq<char>| encode_utf8(s));
    assert(Seq::<Seq<u8>>::empty() + bs =~= bs);
    assert(request_at(b) == Framing::Done(bs, request_bytes(args).len() as int));
    assert forall|i: int| 0 <= i < bs.len() implies valid_utf8(#[trigger] bs[i]) by {
        vstd::utf8::encode_utf8_valid_utf8(args[i]);
    }
    assert forall|out: Seq<Seq<char>>|
        decodes_to(b, out, request_bytes(args).len() as int) implies out == args by {
        assert forall|i: int| 0 <= i < out.len() implies out[i] == args[i] by {
            assert(bs[i] == encode_utf8(out[i]));
            utf8_is_injective(out[i], args[i]);
        }
        assert(out =~= args);
    }
}

proof fn lemma_number_prefix(b: Seq<u8>, pos: int, m: int)
    requires
        0 <= pos <= m <= b.len(),
        number_at(b, pos) is Done,
    ensures
        m < number_at(b, pos)->Done_1 ==> number_at(b.take(m), pos) is More,
        m >= number_at(b, pos)->Done_1 ==> number_at(b.take(m), pos) == number_at(b, pos),
{
    let t = b.take(m);
    let j = digit_run(b, pos) as int;
    lemma_digit_run_bounds(b, pos);
    assert forall|x: int| 0 <= x < m implies #[trigger] t[x] == b[x] by {}
    if m <= pos + j {
        lemma_digit_run(t, pos, m - pos);
    } else {
        lemma_digit_run(t, pos, j);
        if m >= pos + j + 2 {
            assert(t.subrange(pos, pos + j) =~= b.subrange(pos, pos + j));
        }
    }
}

proof fn lemma_digit_run_bounds(b: Seq<u8>, pos: int)
    requires
        0 <= pos,
    ensures
        pos + digit_run(b, pos) <= b.len() || digit_run(b, pos) == 0,
        forall|x: int| pos <= x < pos + digit_run(b, pos) ==> is_digit_byte(#[trigger] b[x]),
        pos + digit_run(b, pos) < b.len() ==> !is_digit_byte(b[pos + digit_run(b, pos)]),
    decreases b.len() - pos,
{
    if 0 <= pos < b.len() && is_digit_byte(b[pos]) {
        lemma_digit_run_bounds(b, pos + 1);
    }
}

proof fn lemma_items_prefix(b: Seq<u8>, pos: int, c: nat, acc: Seq<Seq<u8>>, m: int)
    requires
        0 <= pos <= m <= b.len(),
        items_at(b, pos, c, acc) is Done,
        m < items_at(b, pos, c, acc)->Done_1,
    ensures
        items_at(b.take(m), pos, c, acc) is More,
    decreases c,
{
    let t = b.take(m);
    assert forall|x: int| 0 <= x < m implies #[trigger] t[x] == b[x] by {}
    if c > 0 && m > pos {
        lemma_number_prefix(b, pos + 1, m);
        let l = number_at(b, pos + 1)->Done_0;
        let p = number_at(b, pos + 1)->Done_1;
        if m >= p && p + l + 1 < m {
            lemma_items_prefix(b, p + l + 2, (c - 1) as nat, acc.push(b.subrange(p, p + l)), m);
            assert(t.subrange(p, p + l) =~= b.subrange(p, p + l));
        }
    }
}

proof fn lemma_items_end(b: Seq<u8>, pos: int, c: nat, acc: Seq<Seq<u8>>)
    requires
        0 <= pos <= b.len(),
        items_at(b, pos, c, acc) is Done,
    ensures
        items_at(b, pos, c, acc)->Done_1 <= b.len(),
    decreases c,
{
    if c > 0 {
        let l = number_at(b, pos + 1)->Done_0;
        let p = number_at(b, pos + 1)->Done_1;
        lemma_items_end(b, p + l + 2, (c - 1) as nat, acc.push(b.subrange(p, p + l)));
    }
}

/// A strict prefix of a whole request decodes as incomplete; joined again
/// with the rest, it decodes as the whole did.
pub proof fn prefix_is_incomplete(b: Seq<u8>, m: int)
    requires
        request_at(b) is Done,
        0 <= m < request_at(b)->Done_1,
    ensures
        request_at(b.take(m)) is More,
        request_at(b.take(m) + b.skip(m)) == request_at(b),
{
    lemma_items_end(b, number_at(b, 1)->Done_1, number_at(b, 1)->Done_0, Seq::empty());
    assert(m < b.len());
    assert(b.take(m) + b.skip(m) =~= b);
    let t = b.take(m);
    if m > 0 {
        assert(t[0] == b[0]);
        lemma_number_prefix(b, 1, m);
        let p = number_at(b, 1)->Done_1;
        if m >= p {
            lemma_items_prefix(b, p, number_at(b, 1)->Done_0, Seq::empty(), m);
        }
    }
}

} // verus!
