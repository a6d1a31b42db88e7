//! The protocol codec: fixed 9-byte request frames and 4-byte replies.
//!
//! A request frame is one tag byte (`'I'` for an insertion, `'Q'` for a
//! query) followed by two big-endian signed 32-bit operands. A reply is a
//! single big-endian signed 32-bit value.

use vstd::prelude::*;

verus! {

/// Tag byte of an insertion request, `'I'`.
pub const TAG_INSERT: u8 = 73;

/// Tag byte of a query request, `'Q'`.
pub const TAG_QUERY: u8 = 81;

/// A decoded request frame: record a price observation, or ask for the mean
/// price over an inclusive time window.
#[derive(Debug, Clone, Copy, PartialEq, Eq, Structural)]
pub enum Request {
    /// `Insert(timestamp, price)`: record `price` at `timestamp`.
    Insert(i32, i32),
    /// `Query(min_time, max_time)`: the mean price over `[min_time, max_time]`.
    Query(i32, i32),
}

/// The tag byte of a request frame was neither `'I'` nor `'Q'`.
#[derive(Debug, Clone, Copy, PartialEq, Eq, Structural)]
pub struct MalformedFrame;

/// The reply to a single request: one signed 32-bit value.
#[derive(Debug, Clone, Copy, PartialEq, Eq, Structural)]
pub struct Response {
    pub price: i32,
}

/// The unsigned value of four bytes read as one big-endian 32-bit word.
pub open spec fn be_u32(b0: u8, b1: u8, b2: u8, b3: u8) -> int {
    ((b0 * 256 + b1) * 256 + b2) * 256 + b3
}

/// The signed 32-bit value of four big-endian bytes (two's complement).
pub open spec fn be_i32(b0: u8, b1: u8, b2: u8, b3: u8) -> int {
    let u = be_u32(b0, b1, b2, b3);
    if u >= 0x8000_0000 {
        u - 0x1_0000_0000
    } else {
        u
    }
}

/// Whether a tag byte names one of the two request kinds.
pub open spec fn valid_tag(tag: u8) -> bool {
    tag == TAG_INSERT || tag == TAG_QUERY
}

/// The request encoded in a well-tagged 9-byte frame.
pub open spec fn decoded_request(s: Seq<u8>) -> Request
    recommends
        s.len() == 9,
        valid_tag(s[0]),
{
    let a = be_i32(s[1], s[2], s[3], s[4]) as i32;
    let b = be_i32(s[5], s[6], s[7], s[8]) as i32;
    if s[0] == TAG_INSERT {
        Request::Insert(a, b)
    } else {
        Request::Query(a, b)
    }
}

/// Assemble a signed 32-bit value from four big-endian bytes.
pub fn i32_from_be(b0: u8, b1: u8, b2: u8, b3: u8) -> (r: i32)
    ensures
        r as int == be_i32(b0, b1, b2, b3),
{
    let u: u32 = (((b0 as u32) * 256 + (b1 as u32)) * 256 + (b2 as u32)) * 256 + (b3 as u32);
    let s: i64 = u as i64;
    if s >= 0x8000_0000 {
        (s - 0x1_0000_0000) as i32
    } else {
        s as i32
    }
}

/// The four big-endian bytes of a signed 32-bit value (two's complement).
pub open spec fn be4(x: i32) -> Seq<u8> {
    let u = if x < 0 {
        x + 0x1_0000_0000
    } else {
        x as int
    };
    let q1 = u / 256;
    let q2 = q1 / 256;
    let q3 = q2 / 256;
    seq![(q3 % 256) as u8, (q2 % 256) as u8, (q1 % 256) as u8, (u % 256) as u8]
}

/// The 9-byte frame that carries a request.
pub open spec fn encoded_request(req: Request) -> Seq<u8> {
    match req {
        Request::Insert(t, p) => seq![TAG_INSERT] + be4(t) + be4(p),
        Request::Query(lo, hi) => seq![TAG_QUERY] + be4(lo) + be4(hi),
    }
}

/// The four bytes of `be4(x)` read back as a big-endian signed 32-bit word
/// give `x` again.
pub proof fn lemma_be4_decodes(x: i32)
    ensures
        be4(x).len() == 4,
        be_i32(be4(x)[0], be4(x)[1], be4(x)[2], be4(x)[3]) == x as int,
{
    let u = if x < 0 {
        x + 0x1_0000_0000
    } else {
        x as int
    };
    let q1 = u / 256;
    let q2 = q1 / 256;
    let q3 = q2 / 256;
    assert(0 <= u < 0x1_0000_0000);
    vstd::arithmetic::div_mod::lemma_mod_division_less_than_divisor(u, 256);
    vstd::arithmetic::div_mod::lemma_mod_division_less_than_divisor(q1, 256);
    vstd::arithmetic::div_mod::lemma_mod_division_less_than_divisor(q2, 256);
    vstd::arithmetic::div_mod::lemma_mod_division_less_than_divisor(q3, 256);
    vstd::arithmetic::div_mod::lemma_fundamental_div_mod(u, 256);
    vstd::arithmetic::div_mod::lemma_fundamental_div_mod(q1, 256);
    vstd::arithmetic::div_mod::lemma_fundamental_div_mod(q2, 256);
    vstd::arithmetic::div_mod::lemma_div_pos_is_pos(u, 256);
    vstd::arithmetic::div_mod::lemma_div_pos_is_pos(q1, 256);
    vstd::arithmetic::div_mod::lemma_div_pos_is_pos(q2, 256);
    vstd::arithmetic::div_mod::lemma_multiply_divide_lt(u, 0x100_0000, 256);
    vstd::arithmetic::div_mod::lemma_multiply_divide_lt(q1, 0x1_0000, 256);
    vstd::arithmetic::div_mod::lemma_multiply_divide_lt(q2, 0x100, 256);
    assert(q3 % 256 == q3) by {
        vstd::arithmetic::div_mod::lemma_small_mod(q3 as nat, 256);
    };
    assert(be_u32(be4(x)[0], be4(x)[1], be4(x)[2], be4(x)[3]) == u);
}

/// Decoding an encoded request yields the request back, for every
/// representable pair of operands.
pub proof fn lemma_request_round_trip(req: Request)
    ensures
        encoded_request(req).len() == 9,
        valid_tag(encoded_request(req)[0]),
        decoded_request(encoded_request(req)) == req,
{
    match req {
        Request::Insert(t, p) => {
            lemma_be4_decodes(t);
            lemma_be4_decodes(p);
        }
        Request::Query(lo, hi) => {
            lemma_be4_decodes(lo);
            lemma_be4_decodes(hi);
        }
    }
}

/// Append the four big-endian bytes of `x`.
pub fn push_be_i32(out: &mut Vec<u8>, x: i32)
    ensures
        final(out)@ == old(out)@ + be4(x),
{
    let u: u32 = if x < 0 {
        ((x as i64) + 0x1_0000_0000) as u32
    } else {
        x as u32
    };
    let q1: u32 = u / 256;
    let q2: u32 = q1 / 256;
    let q3: u32 = q2 / 256;
    out.push((q3 % 256) as u8);
    out.push((q2 % 256) as u8);
    out.push((q1 % 256) as u8);
    out.push((u % 256) as u8);
    proof {
        assert(out@ =~= old(out)@ + be4(x));
    }
}

/// Encode a request as the 9-byte frame that carries it.
pub fn encode_request(req: &Request) -> (out: Vec<u8>)
    ensures
        out@ == encoded_request(*req),
{
    let mut out: Vec<u8> = Vec::new();
    match req {
        Request::Insert(t, p) => {
            out.push(TAG_INSERT);
            push_be_i32(&mut out, *t);
            push_be_i32(&mut out, *p);
        }
        Request::Query(lo, hi) => {
            out.push(TAG_QUERY);
            push_be_i32(&mut out, *lo);
            push_be_i32(&mut out, *hi);
        }
    }
    proof {
        assert(out@ =~= encoded_request(*req));
    }
    out
}

impl Response {
    /// Build the reply that carries `price`.
    pub fn new(price: i32) -> (r: Response)
        ensures
            r.price == price,
    {
        Response { price }
    }

    /// Encode the reply as its four big-endian bytes.
    pub fn to_bytes(&self) -> (out: Vec<u8>)
        ensures
            out@ == be4(self.price),
    {
        let mut out: Vec<u8> = Vec::new();
        push_be_i32(&mut out, self.price);
        proof {
            assert(out@ =~= be4(self.price));
        }
        out
    }
}

impl Default for Response {
    /// The reply of an insertion: the fixed value 0.
    fn default() -> (r: Response)
        ensures
            r.price == 0,
    {
        Response { price: 0 }
    }
}

impl Request {
    /// Decode a 9-byte request frame: the tag byte selects the request kind,
    /// bytes 1-4 and 5-8 are its two big-endian signed 32-bit operands.
    pub fn from_bytes(data: &[u8; 9]) -> (r: Result<Request, MalformedFrame>)
        ensures
            match r {
                Ok(req) => valid_tag(data@[0]) && req == decoded_request(data@),
                Err(_) => !valid_tag(data@[0]),
            },
    {
        let tag = data[0];
        if tag == TAG_INSERT || tag == TAG_QUERY {
            let a = i32_from_be(data[1], data[2], data[3], data[4]);
            let b = i32_from_be(data[5], data[6], data[7], data[8]);
            if tag == TAG_INSERT {
                Ok(Request::Insert(a, b))
            } else {
                Ok(Request::Query(a, b))
            }
        } else {
            Err(MalformedFrame)
        }
    }
}

} // verus!
