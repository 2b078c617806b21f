//! What is said to a server: the bytes of the messages that a client sends.
use vstd::prelude::*;
use vstd::utf8::encode_utf8;

verus! {

/// A number in four bytes, the highest byte first.
pub open spec fn be_bytes(n: nat) -> Seq<u8> {
    seq![
        (n / 0x100_0000 % 0x100) as u8,
        (n / 0x1_0000 % 0x100) as u8,
        (n / 0x100 % 0x100) as u8,
        (n % 0x100) as u8,
    ]
}

/// A message: its tag, its length, which counts itself, and its body.
pub open spec fn framed(tag: u8, body: Seq<u8>) -> Seq<u8> {
    seq![tag] + be_bytes(body.len() + 4) + body
}

/// Whether a body is short enough for its length to be written.
pub open spec fn fits(body: Seq<u8>) -> bool {
    body.len() + 4 <= i32::MAX
}

/// Bytes that end with a zero.
pub open spec fn terminated(bytes: Seq<u8>) -> Seq<u8> {
    bytes.push(0u8)
}

/// The body of a `SASLInitialResponse`: the mechanism, and the data behind its
/// length.
pub open spec fn initial_body(mechanism: Seq<char>, data: Seq<u8>) -> Seq<u8> {
    terminated(encode_utf8(mechanism)) + be_bytes(data.len()) + data
}

/// Whether bytes can be sent with a zero behind them: they hold none, and are
/// not too long.
pub open spec fn sendable(bytes: Seq<u8>) -> bool {
    !bytes.contains(0) && fits(terminated(bytes))
}

/// Whether a `SASLInitialResponse` can be sent.
pub open spec fn initial_sendable(mechanism: Seq<char>, data: Seq<u8>) -> bool {
    !encode_utf8(mechanism).contains(0) && fits(initial_body(mechanism, data))
}

/// What is said of a message that cannot be sent: that a text in it holds a
/// zero, or that it is too long.
pub open spec fn complaint(zero: bool) -> Seq<char> {
    if zero {
        "string contains embedded null"@
    } else {
        "value too large to transmit"@
    }
}

/// Whether a message came out as those bytes, where it can be sent, or else as
/// that complaint.
pub open spec fn writes(
    message: Result<Vec<u8>, String>,
    can_be_sent: bool,
    bytes: Seq<u8>,
    complaint: Seq<char>,
) -> bool {
    match message {
        Ok(m) => can_be_sent && m@ == bytes,
        Err(text) => !can_be_sent && text@ == complaint,
    }
}

/// `postgres_protocol::message::frontend::query`: a `Query` with the text and a
/// zero behind it. A text that holds a zero or is too long is refused.
#[verifier::external_body]
pub(crate) fn query_message(sql: &str) -> (message: Result<Vec<u8>, String>)
    ensures
        writes(
            message,
            sendable(encode_utf8(sql@)),
            framed(0x51, terminated(encode_utf8(sql@))),
            complaint(encode_utf8(sql@).contains(0)),
        ),
{
    let mut out = bytes::BytesMut::new();
    postgres_protocol::message::frontend::query(sql, &mut out).map_err(|e| e.to_string())?;
    Ok(out.to_vec())
}

/// `postgres_protocol::message::frontend::password_message`: a
/// `PasswordMessage` with the password and a zero behind it. A password that
/// holds a zero or is too long is refused.
#[verifier::external_body]
pub(crate) fn password_message(password: &[u8]) -> (message: Result<Vec<u8>, String>)
    ensures
        writes(
            message,
            sendable(password@),
            framed(0x70, terminated(password@)),
            complaint(password@.contains(0)),
        ),
{
    let mut out = bytes::BytesMut::new();
    postgres_protocol::message::frontend::password_message(password, &mut out)
        .map_err(|e| e.to_string())?;
    Ok(out.to_vec())
}

/// `postgres_protocol::message::frontend::sasl_initial_response`: a
/// `SASLInitialResponse` with the mechanism and the data. A mechanism that
/// holds a zero and data that is too long are refused.
#[verifier::external_body]
pub(crate) fn sasl_initial_response(mechanism: &str, data: &[u8]) -> (message: Result<
    Vec<u8>,
    String,
>)
    ensures
        writes(
            message,
            initial_sendable(mechanism@, data@),
            framed(0x70, initial_body(mechanism@, data@)),
            complaint(encode_utf8(mechanism@).contains(0)),
        ),
{
    let mut out = bytes::BytesMut::new();
    postgres_protocol::message::frontend::sasl_initial_response(mechanism, data, &mut out)
        .map_err(|e| e.to_string())?;
    Ok(out.to_vec())
}

/// `postgres_protocol::message::frontend::sasl_response`: a `SASLResponse` with
/// the data. Data that is too long is refused.
#[verifier::external_body]
pub(crate) fn sasl_response(data: &[u8]) -> (message: Result<Vec<u8>, String>)
    ensures
        writes(message, fits(data@), framed(0x70, data@), complaint(false)),
{
    let mut out = bytes::BytesMut::new();
    postgres_protocol::message::frontend::sasl_response(data, &mut out)
        .map_err(|e| e.to_string())?;
    Ok(out.to_vec())
}

/// `postgres_protocol::message::frontend::terminate`: a `Terminate`, which has
/// no body.
#[verifier::external_body]
fn terminate(out: &mut Vec<u8>)
    ensures
        final(out)@ == old(out)@ + framed(0x58, Seq::<u8>::empty()),
{
    let mut message = bytes::BytesMut::new();
    postgres_protocol::message::frontend::terminate(&mut message);
    out.extend_from_slice(&message);
}

/// What a client says when it leaves.
pub fn terminate_message() -> (message: Vec<u8>)
    ensures
        message@ == framed(0x58, Seq::<u8>::empty()),
{
    let mut message: Vec<u8> = Vec::new();
    terminate(&mut message);
    assert(message@ =~= framed(0x58, Seq::<u8>::empty()));
    message
}

/// What opens an exchange says which mechanism it is for and how much data it
/// brings: the mechanism stands up to the first zero, the number of bytes behind
/// it, and the data behind that.
pub proof fn law_an_opening_says_its_mechanism_and_its_data(mechanism: Seq<char>, data: Seq<u8>)
    requires
        initial_sendable(mechanism, data),
    ensures
        ({
            let body = initial_body(mechanism, data);
            let zero = encode_utf8(mechanism).len() as int;
            &&& body.len() == zero + 5 + data.len()
            &&& body.subrange(0, zero) == encode_utf8(mechanism)
            &&& body[zero] == 0
            &&& forall|k: int| 0 <= k < zero ==> #[trigger] body[k] != 0
            &&& body[zero + 1] * 0x100_0000 + body[zero + 2] * 0x1_0000 + body[zero + 3] * 0x100
                + body[zero + 4] == data.len()
            &&& body.subrange(zero + 5, body.len() as int) == data
        }),
{
    let body = initial_body(mechanism, data);
    let name = encode_utf8(mechanism);
    let zero = name.len() as int;
    let n = data.len();
    assert forall|k: int| 0 <= k < zero implies #[trigger] body[k] != 0 by {
        assert(body[k] == name[k]);
        assert(name.contains(name[k]));
    }
    assert(body.subrange(0, zero) =~= name);
    assert(body.subrange(zero + 5, body.len() as int) =~= data);
    let (q1, r1) = (n / 0x100, n % 0x100);
    let (q2, r2) = (q1 / 0x100, q1 % 0x100);
    let (q3, r3) = (q2 / 0x100, q2 % 0x100);
    assert(n / 0x1_0000 == q2 && n / 0x100_0000 == q3) by {
        vstd::arithmetic::div_mod::lemma_div_denominator(n as int, 0x100, 0x100);
        vstd::arithmetic::div_mod::lemma_div_denominator(n as int, 0x1_0000, 0x100);
    }
    assert(q3 < 0x100);
}

} // verus!
