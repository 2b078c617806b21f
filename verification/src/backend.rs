//! What a server says: its messages as plain values.
use postgres_protocol::message::backend::Message;
use vstd::prelude::*;
use vstd::utf8::{decode_utf8, encode_utf8, valid_utf8};

use crate::frontend::{be_bytes, fits, framed};
use crate::order::same_text;
use crate::startup::CancelKey;

verus! {

/// The authentication messages of a server, told apart.
#[derive(Debug, Clone, Copy, PartialEq, Eq, Structural)]
pub enum AuthKind {
    Accepted,
    Cleartext,
    Md5,
    Gss,
    KerberosV5,
    GssContinue,
    Sspi,
    ScmCredential,
    Sasl,
    SaslContinue,
    SaslFinal,
    Other,
}

/// The other messages of a server, told apart.
#[derive(Debug, Clone, Copy, PartialEq, Eq, Structural)]
pub enum ReplyKind {
    ReadyForQuery,
    Error,
    Notice,
    ParameterStatus,
    KeyData,
    DataRow,
    RowDescription,
    CommandComplete,
    EmptyQuery,
    Other,
}

/// A result with the complaint as a text.
pub open spec fn auth_kind_view(kind: Result<AuthKind, String>) -> Result<AuthKind, Seq<char>> {
    match kind {
        Ok(kind) => Ok(kind),
        Err(complaint) => Err(complaint@),
    }
}

/// A result with the complaint as a text.
pub open spec fn reply_kind_view(kind: Result<ReplyKind, String>) -> Result<ReplyKind, Seq<char>> {
    match kind {
        Ok(kind) => Ok(kind),
        Err(complaint) => Err(complaint@),
    }
}

/// A result with its texts as sequences.
pub open spec fn text_view(text: Result<String, String>) -> Result<Seq<char>, Seq<char>> {
    match text {
        Ok(text) => Ok(text@),
        Err(complaint) => Err(complaint@),
    }
}

/// A result with its texts as sequences.
pub open spec fn name_view(name: Result<Option<String>, String>) -> Result<
    Option<Seq<char>>,
    Seq<char>,
> {
    match name {
        Ok(Some(name)) => Ok(Some(name@)),
        Ok(None) => Ok(None),
        Err(complaint) => Err(complaint@),
    }
}

/// A result with its bytes and its text as sequences.
pub open spec fn value_view(value: Result<Option<Option<Vec<u8>>>, String>) -> Result<
    Option<Option<Seq<u8>>>,
    Seq<char>,
> {
    match value {
        Ok(Some(Some(value))) => Ok(Some(Some(value@))),
        Ok(Some(None)) => Ok(Some(None)),
        Ok(None) => Ok(None),
        Err(complaint) => Err(complaint@),
    }
}

/// A result with its texts as sequences.
pub open spec fn row_view(row: Result<Row, String>) -> Result<Seq<Option<Seq<char>>>, Seq<char>> {
    match row {
        Ok(row) => Ok(row_text(row@)),
        Err(complaint) => Err(complaint@),
    }
}

/// A result with its texts as sequences.
pub open spec fn message_view(message: Result<BackendMessage, String>) -> Result<
    MessageView,
    Seq<char>,
> {
    match message {
        Ok(message) => Ok(message@),
        Err(complaint) => Err(complaint@),
    }
}

/// A result with the complaint as a text.
pub open spec fn bool_view(b: Result<bool, String>) -> Result<bool, Seq<char>> {
    match b {
        Ok(b) => Ok(b),
        Err(complaint) => Err(complaint@),
    }
}

/// Whether a message other than one of authentication is of that kind.
pub open spec fn is_reply(bytes: Seq<u8>, kind: ReplyKind) -> bool {
    match reply_kind_of(bytes) {
        Ok(read) => read == kind,
        Err(_) => false,
    }
}

/// Whether a message of authentication is of that kind.
pub open spec fn is_auth(bytes: Seq<u8>, kind: AuthKind) -> bool {
    match auth_kind_of(bytes) {
        Ok(read) => read == kind,
        Err(_) => false,
    }
}

/// Which authentication message `postgres_protocol` reads out of the bytes of
/// one message, or how it complains.
pub uninterp spec fn auth_kind_of(bytes: Seq<u8>) -> Result<AuthKind, Seq<char>>;

/// Which other message `postgres_protocol` reads out of the bytes of one
/// message, or how it complains.
pub uninterp spec fn reply_kind_of(bytes: Seq<u8>) -> Result<ReplyKind, Seq<char>>;

/// How `postgres_protocol` complains of a name in a `ParameterStatus` that is not
/// UTF-8, by the bytes of the name.
pub uninterp spec fn name_complaint(bytes: Seq<u8>) -> Seq<char>;

/// How `postgres_protocol` complains of a value in a `ParameterStatus` that is
/// not UTF-8, by the bytes of the value.
pub uninterp spec fn value_complaint(bytes: Seq<u8>) -> Seq<char>;

/// The type and the value of the `n`-th field of an `ErrorResponse`, where it
/// can be read.
pub uninterp spec fn field_of(bytes: Seq<u8>, n: nat) -> Option<(u8, Seq<u8>)>;

/// The `n`-th mechanism that an `AuthenticationSASL` offers, or how
/// `postgres_protocol` complains of the list.
pub uninterp spec fn mechanism_of(bytes: Seq<u8>, n: nat) -> Result<Option<Seq<char>>, Seq<char>>;

/// The `n`-th value of a `DataRow`, null or not, or how `postgres_protocol`
/// complains of the row.
pub uninterp spec fn value_of(bytes: Seq<u8>, n: nat) -> Result<Option<Option<Seq<u8>>>, Seq<char>>;

/// What `String::from_utf8_lossy` makes of some bytes.
pub uninterp spec fn lossy(bytes: Seq<u8>) -> Seq<char>;

/// The result of `Message::parse` on the bytes of one message: which
/// authentication message it is.
#[verifier::external_body]
fn auth_kind(bytes: &[u8]) -> (kind: Result<AuthKind, String>)
    ensures
        auth_kind_view(kind) == auth_kind_of(bytes@),
{
    Ok(match Message::parse(&mut bytes::BytesMut::from(bytes)).map_err(|e| e.to_string())? {
        Some(Message::AuthenticationOk) => AuthKind::Accepted,
        Some(Message::AuthenticationCleartextPassword) => AuthKind::Cleartext,
        Some(Message::AuthenticationMd5Password(_)) => AuthKind::Md5,
        Some(Message::AuthenticationGss) => AuthKind::Gss,
        Some(Message::AuthenticationKerberosV5) => AuthKind::KerberosV5,
        Some(Message::AuthenticationGssContinue(_)) => AuthKind::GssContinue,
        Some(Message::AuthenticationSspi) => AuthKind::Sspi,
        Some(Message::AuthenticationScmCredential) => AuthKind::ScmCredential,
        Some(Message::AuthenticationSasl(_)) => AuthKind::Sasl,
        Some(Message::AuthenticationSaslContinue(_)) => AuthKind::SaslContinue,
        Some(Message::AuthenticationSaslFinal(_)) => AuthKind::SaslFinal,
        _ => AuthKind::Other,
    })
}

/// The result of `Message::parse` on the bytes of one message: which message
/// other than one of authentication it is.
#[verifier::external_body]
fn reply_kind(bytes: &[u8]) -> (kind: Result<ReplyKind, String>)
    ensures
        reply_kind_view(kind) == reply_kind_of(bytes@),
{
    Ok(match Message::parse(&mut bytes::BytesMut::from(bytes)).map_err(|e| e.to_string())? {
        Some(Message::ReadyForQuery(_)) => ReplyKind::ReadyForQuery,
        Some(Message::ErrorResponse(_)) => ReplyKind::Error,
        Some(Message::NoticeResponse(_)) => ReplyKind::Notice,
        Some(Message::ParameterStatus(_)) => ReplyKind::ParameterStatus,
        Some(Message::BackendKeyData(_)) => ReplyKind::KeyData,
        Some(Message::DataRow(_)) => ReplyKind::DataRow,
        Some(Message::RowDescription(_)) => ReplyKind::RowDescription,
        Some(Message::CommandComplete(_)) => ReplyKind::CommandComplete,
        Some(Message::EmptyQueryResponse) => ReplyKind::EmptyQuery,
        _ => ReplyKind::Other,
    })
}

/// The status in a `ReadyForQuery`: the byte behind the length.
pub open spec fn status_of(bytes: Seq<u8>) -> u8 {
    bytes[5]
}

/// The number that four bytes write, the highest byte first.
pub open spec fn be_value(a: u8, b: u8, c: u8, d: u8) -> nat {
    (a * 0x100_0000 + b * 0x1_0000 + c * 0x100 + d) as nat
}

/// The signed number in the four bytes at `n`, the highest byte first.
pub open spec fn signed_at(bytes: Seq<u8>, n: int) -> int {
    let value = be_value(bytes[n], bytes[n + 1], bytes[n + 2], bytes[n + 3]);
    if value < 0x8000_0000 {
        value as int
    } else {
        value - 0x1_0000_0000
    }
}

/// The process id and the secret in a `BackendKeyData`.
pub open spec fn key_of(bytes: Seq<u8>) -> CancelKey {
    CancelKey {
        process_id: signed_at(bytes, 5) as i32,
        secret_key: signed_at(bytes, 9) as i32,
    }
}

/// Where the first zero from `n` on stands; the end, where there is none.
pub open spec fn zero_from(bytes: Seq<u8>, n: int) -> int
    decreases bytes.len() - n,
{
    if n >= bytes.len() || bytes[n] == 0 {
        n
    } else {
        zero_from(bytes, n + 1)
    }
}

/// The bytes of the name in a `ParameterStatus`: up to the first zero.
pub open spec fn name_in(bytes: Seq<u8>) -> Seq<u8> {
    bytes.subrange(5, zero_from(bytes, 5))
}

/// The bytes of the value in a `ParameterStatus`: from behind the name up to the
/// next zero.
pub open spec fn value_in(bytes: Seq<u8>) -> Seq<u8> {
    let start = zero_from(bytes, 5) + 1;
    bytes.subrange(start, zero_from(bytes, start))
}

/// The text that bytes encode, or the complaint of those that encode none.
pub open spec fn text_read(bytes: Seq<u8>, complaint: Seq<char>) -> Result<Seq<char>, Seq<char>> {
    if valid_utf8(bytes) {
        Ok(decode_utf8(bytes))
    } else {
        Err(complaint)
    }
}

/// The name and the value in a `ParameterStatus`, or the complaint of the first
/// of them that is not UTF-8.
pub open spec fn parameter_of(bytes: Seq<u8>) -> Result<(Seq<char>, Seq<char>), Seq<char>> {
    let name = text_read(name_in(bytes), name_complaint(name_in(bytes)));
    let value = text_read(value_in(bytes), value_complaint(value_in(bytes)));
    match (name, value) {
        (Err(complaint), _) => Err(complaint),
        (Ok(_), Err(complaint)) => Err(complaint),
        (Ok(name), Ok(value)) => Ok((name, value)),
    }
}

/// The salt in an `AuthenticationMD5Password`: four bytes behind the kind of
/// authentication.
pub open spec fn salt_of(bytes: Seq<u8>) -> Seq<u8> {
    bytes.subrange(9, 13)
}

/// The data in an `AuthenticationSASLContinue` or an `AuthenticationSASLFinal`:
/// all that the message holds behind the kind of authentication.
pub open spec fn data_of(bytes: Seq<u8>) -> Seq<u8> {
    bytes.subrange(9, 1 + be_value(bytes[1], bytes[2], bytes[3], bytes[4]) as int)
}

/// `ReadyForQueryBody::status`: there is one where `Message::parse` read a
/// `ReadyForQuery`.
#[verifier::external_body]
fn ready_status(bytes: &[u8]) -> (status: Option<u8>)
    ensures
        status is Some <==> is_reply(bytes@, ReplyKind::ReadyForQuery),
        status matches Some(s) ==> s == status_of(bytes@),
{
    match Message::parse(&mut bytes::BytesMut::from(bytes)) {
        Ok(Some(Message::ReadyForQuery(body))) => Some(body.status()),
        _ => None,
    }
}

/// `BackendKeyDataBody::process_id`: the first number behind the length; there
/// is one where `Message::parse` read a `BackendKeyData`.
#[verifier::external_body]
fn key_process_id(bytes: &[u8]) -> (id: Option<i32>)
    ensures
        id is Some <==> is_reply(bytes@, ReplyKind::KeyData),
        id matches Some(i) ==> i == signed_at(bytes@, 5),
{
    match Message::parse(&mut bytes::BytesMut::from(bytes)) {
        Ok(Some(Message::BackendKeyData(body))) => Some(body.process_id()),
        _ => None,
    }
}

/// `BackendKeyDataBody::secret_key`: the second number behind the length; there
/// is one where `Message::parse` read a `BackendKeyData`.
#[verifier::external_body]
fn key_secret(bytes: &[u8]) -> (secret: Option<i32>)
    ensures
        secret is Some <==> is_reply(bytes@, ReplyKind::KeyData),
        secret matches Some(s) ==> s == signed_at(bytes@, 9),
{
    match Message::parse(&mut bytes::BytesMut::from(bytes)) {
        Ok(Some(Message::BackendKeyData(body))) => Some(body.secret_key()),
        _ => None,
    }
}

/// `ParameterStatusBody::name`: the text up to the first zero behind the length,
/// or a complaint, which is named, where it is not UTF-8; there is one where
/// `Message::parse` read a `ParameterStatus`.
#[verifier::external_body]
fn parameter_name(bytes: &[u8]) -> (name: Option<Result<String, String>>)
    ensures
        name is Some <==> is_reply(bytes@, ReplyKind::ParameterStatus),
        name matches Some(n) ==> text_view(n) == text_read(
            name_in(bytes@),
            name_complaint(name_in(bytes@)),
        ),
{
    match Message::parse(&mut bytes::BytesMut::from(bytes)) {
        Ok(Some(Message::ParameterStatus(body))) => Some(
            body.name().map(str::to_owned).map_err(|e| e.to_string()),
        ),
        _ => None,
    }
}

/// `ParameterStatusBody::value`: the text from behind the name up to the next
/// zero, or a complaint, which is named, where it is not UTF-8; there is one
/// where `Message::parse` read a `ParameterStatus`.
#[verifier::external_body]
fn parameter_value(bytes: &[u8]) -> (value: Option<Result<String, String>>)
    ensures
        value is Some <==> is_reply(bytes@, ReplyKind::ParameterStatus),
        value matches Some(v) ==> text_view(v) == text_read(
            value_in(bytes@),
            value_complaint(value_in(bytes@)),
        ),
{
    match Message::parse(&mut bytes::BytesMut::from(bytes)) {
        Ok(Some(Message::ParameterStatus(body))) => Some(
            body.value().map(str::to_owned).map_err(|e| e.to_string()),
        ),
        _ => None,
    }
}

/// `ErrorResponseBody::fields`, with `FallibleIterator::nth`: the `n`-th field
/// is named. None can be read of any other message.
#[verifier::external_body]
fn field_at(bytes: &[u8], n: usize) -> (field: Option<(u8, Vec<u8>)>)
    ensures
        field is Some <==> field_of(bytes@, n as nat) is Some,
        field matches Some((kind, value)) ==> field_of(bytes@, n as nat) == Some((kind, value@)),
{
    match Message::parse(&mut bytes::BytesMut::from(bytes)) {
        Ok(Some(Message::ErrorResponse(body))) => {
            let mut fields = body.fields();
            let field = fallible_iterator::FallibleIterator::nth(&mut fields, n).ok().flatten()?;
            Some((field.type_(), field.value_bytes().to_vec()))
        },
        _ => None,
    }
}

/// `AuthenticationSaslBody::mechanisms`, with `FallibleIterator::nth`: the
/// `n`-th mechanism is named. There is none in any other message.
#[verifier::external_body]
fn mechanism_at(bytes: &[u8], n: usize) -> (mechanism: Result<Option<String>, String>)
    ensures
        name_view(mechanism) == mechanism_of(bytes@, n as nat),
{
    match Message::parse(&mut bytes::BytesMut::from(bytes)) {
        Ok(Some(Message::AuthenticationSasl(body))) => {
            let mut mechanisms = body.mechanisms();
            fallible_iterator::FallibleIterator::nth(&mut mechanisms, n)
                .map(|name| name.map(str::to_owned))
                .map_err(|e| e.to_string())
        },
        _ => Ok(None),
    }
}

/// `AuthenticationMd5PasswordBody::salt`: there is one, four bytes long, where
/// `Message::parse` read an `AuthenticationMd5Password`.
#[verifier::external_body]
fn md5_salt(bytes: &[u8]) -> (salt: Option<Vec<u8>>)
    ensures
        salt is Some <==> is_auth(bytes@, AuthKind::Md5),
        salt matches Some(s) ==> s@ == salt_of(bytes@) && s@.len() == 4,
{
    match Message::parse(&mut bytes::BytesMut::from(bytes)) {
        Ok(Some(Message::AuthenticationMd5Password(body))) => Some(body.salt().to_vec()),
        _ => None,
    }
}

/// `AuthenticationSaslContinueBody::data`: there is some where `Message::parse`
/// read an `AuthenticationSaslContinue`.
#[verifier::external_body]
fn continue_data(bytes: &[u8]) -> (data: Option<Vec<u8>>)
    ensures
        data is Some <==> is_auth(bytes@, AuthKind::SaslContinue),
        data matches Some(d) ==> d@ == data_of(bytes@),
{
    match Message::parse(&mut bytes::BytesMut::from(bytes)) {
        Ok(Some(Message::AuthenticationSaslContinue(body))) => Some(body.data().to_vec()),
        _ => None,
    }
}

/// `AuthenticationSaslFinalBody::data`: there is some where `Message::parse`
/// read an `AuthenticationSaslFinal`.
#[verifier::external_body]
fn final_data(bytes: &[u8]) -> (data: Option<Vec<u8>>)
    ensures
        data is Some <==> is_auth(bytes@, AuthKind::SaslFinal),
        data matches Some(d) ==> d@ == data_of(bytes@),
{
    match Message::parse(&mut bytes::BytesMut::from(bytes)) {
        Ok(Some(Message::AuthenticationSaslFinal(body))) => Some(body.data().to_vec()),
        _ => None,
    }
}

/// `DataRowBody::ranges` and `buffer`, with `FallibleIterator::nth`: the `n`-th
/// value is named. There is none in any other message.
#[verifier::external_body]
fn value_at(bytes: &[u8], n: usize) -> (value: Result<Option<Option<Vec<u8>>>, String>)
    ensures
        value_view(value) == value_of(bytes@, n as nat),
{
    match Message::parse(&mut bytes::BytesMut::from(bytes)) {
        Ok(Some(Message::DataRow(body))) => {
            let mut ranges = body.ranges();
            fallible_iterator::FallibleIterator::nth(&mut ranges, n)
                .map(|value| value.map(|range| range.map(|r| body.buffer()[r].to_vec())))
                .map_err(|e| e.to_string())
        },
        _ => Ok(None),
    }
}

/// `String::from_utf8_lossy`: the text is named; of valid UTF-8 it is the text
/// that the bytes encode.
#[verifier::external_body]
pub(crate) fn lossy_text(bytes: &[u8]) -> (text: String)
    ensures
        text@ == lossy(bytes@),
        valid_utf8(bytes@) ==> text@ == decode_utf8(bytes@),
{
    String::from_utf8_lossy(bytes).into_owned()
}

/// A row of values in the text format, each null or not.
pub type Row = Vec<Option<String>>;

/// The texts of a row.
pub open spec fn row_text(row: Seq<Option<String>>) -> Seq<Option<Seq<char>>> {
    Seq::new(
        row.len(),
        |i: int|
            match row[i] {
                Some(value) => Some(value@),
                None => None,
            },
    )
}

/// What a server says.
#[derive(Debug, PartialEq, Eq)]
pub enum BackendMessage {
    ReadyForQuery { status: u8 },
    Error { code: String, message: String },
    Notice,
    ParameterStatus { name: String, value: String },
    KeyData(CancelKey),
    AuthenticationOk,
    Cleartext,
    Md5 { salt: Vec<u8> },
    Gssapi,
    ScmCredential,
    Sasl { scram: bool },
    SaslContinue(Vec<u8>),
    SaslFinal(Vec<u8>),
    DataRow(Row),
    RowDescription,
    CommandComplete,
    EmptyQuery,
    Other,
}

/// What a server says, with texts and bytes as sequences.
pub enum MessageView {
    ReadyForQuery { status: u8 },
    Error { code: Seq<char>, message: Seq<char> },
    Notice,
    ParameterStatus { name: Seq<char>, value: Seq<char> },
    KeyData(CancelKey),
    AuthenticationOk,
    Cleartext,
    Md5 { salt: Seq<u8> },
    Gssapi,
    ScmCredential,
    Sasl { scram: bool },
    SaslContinue(Seq<u8>),
    SaslFinal(Seq<u8>),
    DataRow(Seq<Option<Seq<char>>>),
    RowDescription,
    CommandComplete,
    EmptyQuery,
    Other,
}

impl View for BackendMessage {
    type V = MessageView;

    open spec fn view(&self) -> MessageView {
        match *self {
            BackendMessage::ReadyForQuery { status } => MessageView::ReadyForQuery { status },
            BackendMessage::Error { code, message } => MessageView::Error {
                code: code@,
                message: message@,
            },
            BackendMessage::Notice => MessageView::Notice,
            BackendMessage::ParameterStatus { name, value } => MessageView::ParameterStatus {
                name: name@,
                value: value@,
            },
            BackendMessage::KeyData(key) => MessageView::KeyData(key),
            BackendMessage::AuthenticationOk => MessageView::AuthenticationOk,
            BackendMessage::Cleartext => MessageView::Cleartext,
            BackendMessage::Md5 { salt } => MessageView::Md5 { salt: salt@ },
            BackendMessage::Gssapi => MessageView::Gssapi,
            BackendMessage::ScmCredential => MessageView::ScmCredential,
            BackendMessage::Sasl { scram } => MessageView::Sasl { scram },
            BackendMessage::SaslContinue(data) => MessageView::SaslContinue(data@),
            BackendMessage::SaslFinal(data) => MessageView::SaslFinal(data@),
            BackendMessage::DataRow(row) => MessageView::DataRow(row_text(row@)),
            BackendMessage::RowDescription => MessageView::RowDescription,
            BackendMessage::CommandComplete => MessageView::CommandComplete,
            BackendMessage::EmptyQuery => MessageView::EmptyQuery,
            BackendMessage::Other => MessageView::Other,
        }
    }
}

/// The text of the first field of that type from the `n`-th on: empty, where
/// there is none.
pub open spec fn field_text(bytes: Seq<u8>, wanted: u8, n: nat) -> Seq<char>
    decreases bytes.len() - n,
{
    if n >= bytes.len() {
        Seq::empty()
    } else {
        match field_of(bytes, n) {
            Some((kind, value)) => if kind == wanted {
                lossy(value)
            } else {
                field_text(bytes, wanted, n + 1)
            },
            None => Seq::empty(),
        }
    }
}

/// Whether SCRAM-SHA-256 is offered from the `n`-th mechanism on.
pub open spec fn offers_scram(bytes: Seq<u8>, n: nat) -> Result<bool, Seq<char>>
    decreases bytes.len() - n,
{
    if n >= bytes.len() {
        Ok(false)
    } else {
        match mechanism_of(bytes, n) {
            Err(e) => Err(e),
            Ok(None) => Ok(false),
            Ok(Some(name)) => if name == "SCRAM-SHA-256"@ {
                Ok(true)
            } else {
                offers_scram(bytes, n + 1)
            },
        }
    }
}

/// The text of a value.
pub open spec fn value_text(value: Option<Seq<u8>>) -> Option<Seq<char>> {
    match value {
        Some(bytes) => Some(lossy(bytes)),
        None => None,
    }
}

/// The values of a row from the `n`-th on.
pub open spec fn row_of(bytes: Seq<u8>, n: nat) -> Result<Seq<Option<Seq<char>>>, Seq<char>>
    decreases bytes.len() - n,
{
    if n >= bytes.len() {
        Ok(Seq::empty())
    } else {
        match value_of(bytes, n) {
            Err(e) => Err(e),
            Ok(None) => Ok(Seq::empty()),
            Ok(Some(value)) => match row_of(bytes, n + 1) {
                Err(e) => Err(e),
                Ok(rest) => Ok(seq![value_text(value)] + rest),
            },
        }
    }
}

/// What a server says in the bytes of one message, or how `postgres_protocol`
/// complains of it.
pub open spec fn message_of(bytes: Seq<u8>) -> Result<MessageView, Seq<char>> {
    match reply_kind_of(bytes) {
        Err(e) => Err(e),
        Ok(ReplyKind::ReadyForQuery) => Ok(
            MessageView::ReadyForQuery { status: status_of(bytes) },
        ),
        Ok(ReplyKind::Error) => Ok(
            MessageView::Error {
                code: field_text(bytes, 67, 0),
                message: field_text(bytes, 77, 0),
            },
        ),
        Ok(ReplyKind::Notice) => Ok(MessageView::Notice),
        Ok(ReplyKind::ParameterStatus) => match parameter_of(bytes) {
            Ok((name, value)) => Ok(MessageView::ParameterStatus { name, value }),
            Err(e) => Err(e),
        },
        Ok(ReplyKind::KeyData) => Ok(MessageView::KeyData(key_of(bytes))),
        Ok(ReplyKind::DataRow) => match row_of(bytes, 0) {
            Ok(row) => Ok(MessageView::DataRow(row)),
            Err(e) => Err(e),
        },
        Ok(ReplyKind::RowDescription) => Ok(MessageView::RowDescription),
        Ok(ReplyKind::CommandComplete) => Ok(MessageView::CommandComplete),
        Ok(ReplyKind::EmptyQuery) => Ok(MessageView::EmptyQuery),
        Ok(ReplyKind::Other) => authentication_of(bytes),
    }
}

/// What a server says of authentication in the bytes of one message.
pub open spec fn authentication_of(bytes: Seq<u8>) -> Result<MessageView, Seq<char>> {
    match auth_kind_of(bytes) {
        Err(e) => Err(e),
        Ok(AuthKind::Accepted) => Ok(MessageView::AuthenticationOk),
        Ok(AuthKind::Cleartext) => Ok(MessageView::Cleartext),
        Ok(AuthKind::Md5) => Ok(MessageView::Md5 { salt: salt_of(bytes) }),
        Ok(AuthKind::Gss) => Ok(MessageView::Gssapi),
        Ok(AuthKind::KerberosV5) => Ok(MessageView::Gssapi),
        Ok(AuthKind::GssContinue) => Ok(MessageView::Gssapi),
        Ok(AuthKind::Sspi) => Ok(MessageView::Gssapi),
        Ok(AuthKind::ScmCredential) => Ok(MessageView::ScmCredential),
        Ok(AuthKind::Sasl) => match offers_scram(bytes, 0) {
            Ok(scram) => Ok(MessageView::Sasl { scram }),
            Err(e) => Err(e),
        },
        Ok(AuthKind::SaslContinue) => Ok(MessageView::SaslContinue(data_of(bytes))),
        Ok(AuthKind::SaslFinal) => Ok(MessageView::SaslFinal(data_of(bytes))),
        Ok(AuthKind::Other) => Ok(MessageView::Other),
    }
}

fn error_field(bytes: &[u8], wanted: u8) -> (text: String)
    ensures
        text@ == field_text(bytes@, wanted, 0),
{
    let mut n: usize = 0;
    while n < bytes.len()
        invariant
            n <= bytes@.len(),
            field_text(bytes@, wanted, 0) == field_text(bytes@, wanted, n as nat),
        decreases bytes@.len() - n,
    {
        match field_at(bytes, n) {
            Some((kind, value)) => {
                if kind == wanted {
                    return lossy_text(value.as_slice());
                }
            },
            None => return String::new(),
        }
        n += 1;
    }
    String::new()
}

fn offers_scram_sha_256(bytes: &[u8]) -> (offered: Result<bool, String>)
    ensures
        bool_view(offered) == offers_scram(bytes@, 0),
{
    let mut n: usize = 0;
    while n < bytes.len()
        invariant
            n <= bytes@.len(),
            offers_scram(bytes@, 0) == offers_scram(bytes@, n as nat),
        decreases bytes@.len() - n,
    {
        match mechanism_at(bytes, n) {
            Err(e) => return Err(e),
            Ok(None) => return Ok(false),
            Ok(Some(name)) => {
                if same_text(name.as_str(), "SCRAM-SHA-256") {
                    return Ok(true);
                }
            },
        }
        n += 1;
    }
    Ok(false)
}

fn row_values(bytes: &[u8]) -> (row: Result<Row, String>)
    ensures
        row_view(row) == row_of(bytes@, 0),
{
    let mut row: Row = Vec::new();
    let mut n: usize = 0;
    let ghost whole = row_of(bytes@, 0);
    assert(row_text(row@) =~= Seq::empty());
    proof {
        if let Ok(rest) = whole {
            assert(row_text(row@) + rest =~= rest);
        }
    }
    while n < bytes.len()
        invariant
            n <= bytes@.len(),
            whole == row_of(bytes@, 0),
            whole == (match row_of(bytes@, n as nat) {
                Ok(rest) => Ok::<Seq<Option<Seq<char>>>, Seq<char>>(row_text(row@) + rest),
                Err(e) => Err(e),
            }),
        decreases bytes@.len() - n,
    {
        match value_at(bytes, n) {
            Err(e) => return Err(e),
            Ok(None) => {
                assert(row_text(row@) + Seq::empty() =~= row_text(row@));
                return Ok(row);
            },
            Ok(Some(value)) => {
                let ghost before = row@;
                let text: Option<String> = match &value {
                    Some(v) => Some(lossy_text(v.as_slice())),
                    None => None,
                };
                let ghost shown = if text is Some {
                    Some(text->0@)
                } else {
                    None
                };
                row.push(text);
                proof {
                    assert(row_text(row@) =~= row_text(before).push(shown));
                    if let Ok(rest) = row_of(bytes@, (n + 1) as nat) {
                        assert(row_text(before) + (seq![shown] + rest) =~= row_text(row@) + rest);
                    }
                }
            },
        }
        n += 1;
    }
    assert(row_text(row@) + Seq::empty() =~= row_text(row@));
    Ok(row)
}

/// Reads what a server says out of the bytes of one message.
pub fn read_message(bytes: &[u8]) -> (message: Result<BackendMessage, String>)
    ensures
        message_view(message) == message_of(bytes@),
        message matches Ok(BackendMessage::Md5 { salt }) ==> salt@.len() == 4,
{
    let kind = match reply_kind(bytes) {
        Ok(kind) => kind,
        Err(e) => return Err(e),
    };
    match kind {
        ReplyKind::ReadyForQuery => match ready_status(bytes) {
            Some(status) => Ok(BackendMessage::ReadyForQuery { status }),
            None => Ok(BackendMessage::Other),
        },
        ReplyKind::Error => Ok(
            BackendMessage::Error { code: error_field(bytes, 67), message: error_field(bytes, 77) },
        ),
        ReplyKind::Notice => Ok(BackendMessage::Notice),
        ReplyKind::ParameterStatus => match (parameter_name(bytes), parameter_value(bytes)) {
            (Some(Ok(name)), Some(Ok(value))) => Ok(
                BackendMessage::ParameterStatus { name, value },
            ),
            (Some(Err(e)), _) => Err(e),
            (_, Some(Err(e))) => Err(e),
            _ => Ok(BackendMessage::Other),
        },
        ReplyKind::KeyData => match (key_process_id(bytes), key_secret(bytes)) {
            (Some(process_id), Some(secret_key)) => Ok(
                BackendMessage::KeyData(CancelKey { process_id, secret_key }),
            ),
            _ => Ok(BackendMessage::Other),
        },
        ReplyKind::DataRow => match row_values(bytes) {
            Ok(row) => Ok(BackendMessage::DataRow(row)),
            Err(e) => Err(e),
        },
        ReplyKind::RowDescription => Ok(BackendMessage::RowDescription),
        ReplyKind::CommandComplete => Ok(BackendMessage::CommandComplete),
        ReplyKind::EmptyQuery => Ok(BackendMessage::EmptyQuery),
        ReplyKind::Other => read_authentication(bytes),
    }
}

fn read_authentication(bytes: &[u8]) -> (message: Result<BackendMessage, String>)
    ensures
        message_view(message) == authentication_of(bytes@),
        message matches Ok(BackendMessage::Md5 { salt }) ==> salt@.len() == 4,
{
    let kind = match auth_kind(bytes) {
        Ok(kind) => kind,
        Err(e) => return Err(e),
    };
    match kind {
        AuthKind::Accepted => Ok(BackendMessage::AuthenticationOk),
        AuthKind::Cleartext => Ok(BackendMessage::Cleartext),
        AuthKind::Gss => Ok(BackendMessage::Gssapi),
        AuthKind::KerberosV5 => Ok(BackendMessage::Gssapi),
        AuthKind::GssContinue => Ok(BackendMessage::Gssapi),
        AuthKind::Sspi => Ok(BackendMessage::Gssapi),
        AuthKind::ScmCredential => Ok(BackendMessage::ScmCredential),
        AuthKind::Sasl => match offers_scram_sha_256(bytes) {
            Ok(scram) => Ok(BackendMessage::Sasl { scram }),
            Err(e) => Err(e),
        },
        AuthKind::Md5 => match md5_salt(bytes) {
            Some(salt) => Ok(BackendMessage::Md5 { salt }),
            None => Ok(BackendMessage::Other),
        },
        AuthKind::SaslContinue => match continue_data(bytes) {
            Some(data) => Ok(BackendMessage::SaslContinue(data)),
            None => Ok(BackendMessage::Other),
        },
        AuthKind::SaslFinal => match final_data(bytes) {
            Some(data) => Ok(BackendMessage::SaslFinal(data)),
            None => Ok(BackendMessage::Other),
        },
        AuthKind::Other => Ok(BackendMessage::Other),
    }
}

/// How many bytes the first message in a buffer takes: a tag, and a length that
/// counts itself and what follows it. Nothing, while it is not there whole; an
/// error, where the length cannot be.
pub open spec fn first_length(buffer: Seq<u8>) -> Result<Option<nat>, ()> {
    if buffer.len() < 5 {
        Ok(None)
    } else {
        let len = be_value(buffer[1], buffer[2], buffer[3], buffer[4]);
        if len < 4 {
            Err(())
        } else if buffer.len() < len + 1 {
            Ok(None)
        } else {
            Ok(Some(len + 1))
        }
    }
}

/// How many bytes the first message in a buffer takes.
pub fn message_length(buffer: &[u8]) -> (length: Result<Option<usize>, ()>)
    ensures
        match length {
            Ok(Some(n)) => first_length(buffer@) == Ok::<Option<nat>, ()>(Some(n as nat)) && n
                <= buffer@.len(),
            Ok(None) => first_length(buffer@) == Ok::<Option<nat>, ()>(None),
            Err(()) => first_length(buffer@) is Err,
        },
{
    if buffer.len() < 5 {
        return Ok(None);
    }
    let len: u64 = buffer[1] as u64 * 0x100_0000 + buffer[2] as u64 * 0x1_0000 + buffer[3] as u64
        * 0x100 + buffer[4] as u64;
    if len < 4 {
        return Err(());
    }
    if (buffer.len() as u64) < len + 1 {
        return Ok(None);
    }
    Ok(Some((len + 1) as usize))
}

/// A message that is written is cut off again where it ends, whatever follows it,
/// and not before it is there whole.
pub proof fn law_a_message_ends_where_its_length_says(tag: u8, body: Seq<u8>, rest: Seq<u8>, n: int)
    requires
        fits(body),
        0 <= n < body.len() + 5,
    ensures
        first_length(framed(tag, body) + rest) == Ok::<Option<nat>, ()>(Some(body.len() + 5)),
        first_length(framed(tag, body).subrange(0, n)) == Ok::<Option<nat>, ()>(None),
        (framed(tag, body) + rest).subrange(5, body.len() as int + 5) == body,
        framed(tag, body)[0] == tag,
{
    let size = body.len() + 4;
    let message = framed(tag, body);
    let bytes = be_bytes(size);
    let (a, b, c, d) = (bytes[0], bytes[1], bytes[2], bytes[3]);
    assert(be_value(a, b, c, d) == size) by {
        let (q1, r1) = (size / 0x100, size % 0x100);
        let (q2, r2) = (q1 / 0x100, q1 % 0x100);
        let (q3, r3) = (q2 / 0x100, q2 % 0x100);
        assert(size / 0x1_0000 == q2 && size / 0x100_0000 == q3) by {
            vstd::arithmetic::div_mod::lemma_div_denominator(size as int, 0x100, 0x100);
            vstd::arithmetic::div_mod::lemma_div_denominator(size as int, 0x1_0000, 0x100);
        }
        assert(q3 < 0x100);
    }
    let whole = message + rest;
    assert(whole[1] == a && whole[2] == b && whole[3] == c && whole[4] == d);
    let cut = message.subrange(0, n);
    if n >= 5 {
        assert(cut[1] == a && cut[2] == b && cut[3] == c && cut[4] == d);
    }
    assert(whole.subrange(5, body.len() as int + 5) =~= body);
}

proof fn lemma_row_from(bytes: Seq<u8>, row: Seq<Option<Seq<u8>>>, n: nat)
    requires
        n <= row.len() < bytes.len(),
        forall|k: nat|
            k < row.len() ==> #[trigger] value_of(bytes, k) == Ok::<_, Seq<char>>(
                Some(row[k as int]),
            ),
        value_of(bytes, row.len()) == Ok::<Option<Option<Seq<u8>>>, Seq<char>>(None),
    ensures
        row_of(bytes, n) is Ok,
        row_of(bytes, n)->Ok_0.len() == row.len() - n,
        forall|k: int|
            0 <= k < row.len() - n ==> #[trigger] row_of(bytes, n)->Ok_0[k] == value_text(
                row[n + k],
            ),
    decreases row.len() - n,
{
    if n < row.len() {
        lemma_row_from(bytes, row, n + 1);
        assert(value_of(bytes, n) == Ok::<_, Seq<char>>(Some(row[n as int])));
        let rest = row_of(bytes, n + 1)->Ok_0;
        assert(row_of(bytes, n)->Ok_0 == seq![value_text(row[n as int])] + rest);
        assert forall|k: int| 0 <= k < row.len() - n implies #[trigger] row_of(bytes, n)->Ok_0[k]
            == value_text(row[n + k]) by {
            if k > 0 {
                assert(row_of(bytes, n)->Ok_0[k] == rest[k - 1]);
            }
        }
    }
}

/// Every value of a row is read, in its place: as null where it is null, and as
/// its text where it is not.
pub proof fn law_every_value_of_a_row_is_read(bytes: Seq<u8>, row: Seq<Option<Seq<u8>>>)
    requires
        row.len() < bytes.len(),
        reply_kind_of(bytes) == Ok::<ReplyKind, Seq<char>>(ReplyKind::DataRow),
        forall|k: nat|
            k < row.len() ==> #[trigger] value_of(bytes, k) == Ok::<_, Seq<char>>(
                Some(row[k as int]),
            ),
        value_of(bytes, row.len()) == Ok::<Option<Option<Seq<u8>>>, Seq<char>>(None),
    ensures
        message_of(bytes) matches Ok(MessageView::DataRow(texts)) && texts.len() == row.len()
            && forall|k: int|
            0 <= k < row.len() ==> match #[trigger] texts[k] {
                None => row[k] is None,
                Some(text) => row[k] is Some && text == lossy(row[k]->0),
            },
{
    lemma_row_from(bytes, row, 0);
    let texts = row_of(bytes, 0)->Ok_0;
    assert forall|k: int| 0 <= k < row.len() implies match #[trigger] texts[k] {
        None => row[k] is None,
        Some(text) => row[k] is Some && text == lossy(row[k]->0),
    } by {
        assert(texts[k] == value_text(row[0 + k]));
    }
}

proof fn lemma_field_from(bytes: Seq<u8>, wanted: u8, n: nat, at: nat, value: Seq<u8>)
    requires
        n <= at < bytes.len(),
        forall|k: nat|
            k < at ==> ((#[trigger] field_of(bytes, k)) matches Some(field)
                && field.0 != wanted),
        field_of(bytes, at) == Some((wanted, value)),
    ensures
        field_text(bytes, wanted, n) == lossy(value),
    decreases at - n,
{
    if n < at {
        assert(field_of(bytes, n) is Some);
        lemma_field_from(bytes, wanted, n + 1, at, value);
    }
}

/// An error is told by its code and its message, each of which is the first field
/// of its type, wherever among the fields it stands.
pub proof fn law_an_error_is_told_by_its_fields(
    bytes: Seq<u8>,
    code: Seq<u8>,
    code_at: nat,
    message: Seq<u8>,
    message_at: nat,
)
    requires
        reply_kind_of(bytes) == Ok::<ReplyKind, Seq<char>>(ReplyKind::Error),
        code_at < bytes.len(),
        message_at < bytes.len(),
        forall|k: nat|
            k < code_at ==> ((#[trigger] field_of(bytes, k)) matches Some(field)
                && field.0 != 0x43),
        forall|k: nat|
            k < message_at ==> ((#[trigger] field_of(bytes, k)) matches Some(field)
                && field.0 != 0x4d),
        field_of(bytes, code_at) == Some((0x43u8, code)),
        field_of(bytes, message_at) == Some((0x4du8, message)),
    ensures
        message_of(bytes) == Ok::<MessageView, Seq<char>>(
            MessageView::Error { code: lossy(code), message: lossy(message) },
        ),
{
    lemma_field_from(bytes, 0x43, 0, code_at, code);
    lemma_field_from(bytes, 0x4d, 0, message_at, message);
}

proof fn lemma_offers_from(bytes: Seq<u8>, names: Seq<Seq<char>>, n: nat)
    requires
        n <= names.len() < bytes.len(),
        forall|k: nat|
            k < names.len() ==> #[trigger] mechanism_of(bytes, k) == Ok::<
                _,
                Seq<char>,
            >(Some(names[k as int])),
        mechanism_of(bytes, names.len()) == Ok::<Option<Seq<char>>, Seq<char>>(None),
    ensures
        offers_scram(bytes, n) is Ok,
        offers_scram(bytes, n)->Ok_0 <==> exists|k: int|
            n <= k < names.len() && #[trigger] names[k] == "SCRAM-SHA-256"@,
    decreases names.len() - n,
{
    if n < names.len() {
        lemma_offers_from(bytes, names, n + 1);
        assert(mechanism_of(bytes, n) == Ok::<_, Seq<char>>(Some(names[n as int])));
        if names[n as int] != "SCRAM-SHA-256"@ && offers_scram(bytes, n + 1)->Ok_0 {
            let k = choose|k: int| n + 1 <= k < names.len() && #[trigger] names[k] == "SCRAM-SHA-256"@;
            assert(n <= k < names.len() && names[k] == "SCRAM-SHA-256"@);
        }
    }
}

/// A server offers the exchange where its list of mechanisms names it, wherever in
/// the list; one that names only others does not.
pub proof fn law_the_exchange_is_offered_where_it_is_listed(
    bytes: Seq<u8>,
    names: Seq<Seq<char>>,
)
    requires
        names.len() < bytes.len(),
        reply_kind_of(bytes) == Ok::<ReplyKind, Seq<char>>(ReplyKind::Other),
        auth_kind_of(bytes) == Ok::<AuthKind, Seq<char>>(AuthKind::Sasl),
        forall|k: nat|
            k < names.len() ==> #[trigger] mechanism_of(bytes, k) == Ok::<
                _,
                Seq<char>,
            >(Some(names[k as int])),
        mechanism_of(bytes, names.len()) == Ok::<Option<Seq<char>>, Seq<char>>(None),
    ensures
        message_of(bytes) == Ok::<MessageView, Seq<char>>(
            MessageView::Sasl { scram: names.contains("SCRAM-SHA-256"@) },
        ),
{
    lemma_offers_from(bytes, names, 0);
    if names.contains("SCRAM-SHA-256"@) {
        let k = choose|k: int| 0 <= k < names.len() && names[k] == "SCRAM-SHA-256"@;
        assert(0 <= k < names.len() && names[k] == "SCRAM-SHA-256"@);
    }
}

/// The key of a backend is read as it was written: the process id first, the secret
/// behind it, each with its highest byte first.
pub proof fn law_a_key_is_read_as_it_was_written(bytes: Seq<u8>)
    requires
        reply_kind_of(bytes) == Ok::<ReplyKind, Seq<char>>(ReplyKind::KeyData),
    ensures
        message_of(bytes) matches Ok(MessageView::KeyData(key)) && (bytes[5] * 0x100_0000 + bytes[6]
            * 0x1_0000 + bytes[7] * 0x100 + bytes[8] == if key.process_id < 0 {
            key.process_id + 0x1_0000_0000
        } else {
            key.process_id as int
        }) && (bytes[9] * 0x100_0000 + bytes[10] * 0x1_0000 + bytes[11] * 0x100 + bytes[12]
            == if key.secret_key < 0 {
            key.secret_key + 0x1_0000_0000
        } else {
            key.secret_key as int
        }),
{
}

/// Bytes that cannot be read are refused with what was said of them, a server that is
/// ready says in which status, and a request for a password is of the kind that was
/// made.
pub proof fn law_a_message_is_read_as_its_kind(bytes: Seq<u8>)
    ensures
        reply_kind_of(bytes) matches Err(complaint) ==> message_of(bytes) == Err::<
            MessageView,
            Seq<char>,
        >(complaint),
        message_of(bytes) matches Ok(MessageView::ReadyForQuery { status }) ==> reply_kind_of(bytes)
            == Ok::<ReplyKind, Seq<char>>(ReplyKind::ReadyForQuery) && status == bytes[5],
        message_of(bytes) matches Ok(MessageView::AuthenticationOk) ==> reply_kind_of(bytes) == Ok::<
            ReplyKind,
            Seq<char>,
        >(ReplyKind::Other) && auth_kind_of(bytes) == Ok::<AuthKind, Seq<char>>(AuthKind::Accepted),
        message_of(bytes) matches Ok(MessageView::Cleartext) ==> auth_kind_of(bytes) == Ok::<
            AuthKind,
            Seq<char>,
        >(AuthKind::Cleartext),
        message_of(bytes) matches Ok(MessageView::Md5 { salt }) ==> auth_kind_of(bytes) == Ok::<
            AuthKind,
            Seq<char>,
        >(AuthKind::Md5) && (bytes.len() >= 13 ==> salt == seq![
            bytes[9],
            bytes[10],
            bytes[11],
            bytes[12],
        ]),
        message_of(bytes) is Ok && reply_kind_of(bytes) == Ok::<ReplyKind, Seq<char>>(
            ReplyKind::Other,
        ) && auth_kind_of(bytes) == Ok::<AuthKind, Seq<char>>(AuthKind::SaslFinal)
            ==> message_of(bytes)->Ok_0 is SaslFinal,
        message_of(bytes) is Ok && reply_kind_of(bytes) == Ok::<ReplyKind, Seq<char>>(
            ReplyKind::Other,
        ) && auth_kind_of(bytes) == Ok::<AuthKind, Seq<char>>(AuthKind::SaslContinue)
            ==> message_of(bytes)->Ok_0 is SaslContinue,
{
    if auth_kind_of(bytes) == Ok::<AuthKind, Seq<char>>(AuthKind::Md5) && bytes.len() >= 13 {
        assert(bytes.subrange(9, 13) =~= seq![bytes[9], bytes[10], bytes[11], bytes[12]]);
    }
}

proof fn lemma_zero_from(bytes: Seq<u8>, n: int, zero: int)
    requires
        0 <= n <= zero < bytes.len(),
        forall|k: int| n <= k < zero ==> #[trigger] bytes[k] != 0,
        bytes[zero] == 0,
    ensures
        zero_from(bytes, n) == zero,
    decreases zero - n,
{
    if n < zero {
        lemma_zero_from(bytes, n + 1, zero);
    }
}

/// A parameter that a server reports is read as it was written, whatever its name and
/// its value are.
pub proof fn law_a_reported_parameter_is_read_as_it_was_written(name: Seq<char>, value: Seq<char>)
    requires
        !encode_utf8(name).contains(0),
        !encode_utf8(value).contains(0),
    ensures
        parameter_of(
            framed(0x53, encode_utf8(name) + seq![0u8] + encode_utf8(value) + seq![0u8]),
        ) == Ok::<(Seq<char>, Seq<char>), Seq<char>>((name, value)),
{
    let (first, second) = (encode_utf8(name), encode_utf8(value));
    let bytes = framed(0x53, first + seq![0u8] + second + seq![0u8]);
    let end = 5 + first.len() as int;
    let last = end + 1 + second.len();
    assert forall|k: int| 5 <= k < end implies #[trigger] bytes[k] != 0 by {
        assert(bytes[k] == first[k - 5]);
        assert(first.contains(first[k - 5]));
    }
    assert forall|k: int| end + 1 <= k < last implies #[trigger] bytes[k] != 0 by {
        assert(bytes[k] == second[k - end - 1]);
        assert(second.contains(second[k - end - 1]));
    }
    lemma_zero_from(bytes, 5, end);
    lemma_zero_from(bytes, end + 1, last);
    assert(name_in(bytes) =~= first);
    assert(value_in(bytes) =~= second);
    vstd::utf8::encode_utf8_valid_utf8(name);
    vstd::utf8::encode_utf8_valid_utf8(value);
    vstd::utf8::encode_utf8_decode_utf8(name);
    vstd::utf8::encode_utf8_decode_utf8(value);
}

proof fn lemma_data(whole: Seq<u8>, kind: Seq<u8>, data: Seq<u8>)
    requires
        kind.len() == 4,
        first_length(whole) == Ok::<Option<nat>, ()>(Some(data.len() + 9)),
        data.len() + 9 <= whole.len(),
        whole.subrange(5, data.len() as int + 9) == kind + data,
    ensures
        data_of(whole) == data,
        data.len() == 4 ==> salt_of(whole) == data,
{
    let n = data.len() as int + 9;
    assert(whole.subrange(9, n) =~= whole.subrange(5, n).subrange(4, n - 5));
    assert((kind + data).subrange(4, n - 5) =~= data);
    assert(be_value(whole[1], whole[2], whole[3], whole[4]) == data.len() + 8);
}

/// What a server sends along in an exchange is read whole, and nothing of what
/// follows the message.
pub proof fn law_the_data_of_an_exchange_is_read_whole(
    kind: Seq<u8>,
    data: Seq<u8>,
    rest: Seq<u8>,
)
    requires
        kind.len() == 4,
        fits(kind + data),
    ensures
        data_of(framed(0x52, kind + data) + rest) == data,
        data.len() == 4 ==> salt_of(framed(0x52, kind + data) + rest) == data,
{
    let body = kind + data;
    law_a_message_ends_where_its_length_says(0x52, body, rest, 0);
    lemma_data(framed(0x52, body) + rest, kind, data);
}

} // verus!
