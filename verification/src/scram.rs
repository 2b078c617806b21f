//! The server's side of the SCRAM-SHA-256 exchange.
use vstd::prelude::*;
use vstd::string::StringExecFns;
use vstd::utf8::{
    decode_utf8, encode_utf8, encode_utf8_decode_utf8, encode_utf8_valid_utf8, valid_utf8,
};

use crate::crypto::{
    base64_decode, base64_decoded, base64_encode, base64_encoded, base64_symbols, hmac_of,
    hmac_sha256, random_bytes, same_bytes, saslprep_of, saslprepped, sha256, sha256_of, utf8_text,
};
use crate::order::Dup;
use crate::text::{
    chars_of, decimal, decimal_text, find, find_char, find_last,
    law_a_number_reads_as_it_was_written, lemma_find, lemma_found, number, parse_number, part,
    rfind, same_chars, split_at_char, split_once, starts_with, text_of,
};

verus! {

pub const DEFAULT_ITERATIONS: u32 = 4096;

/// The name of the mechanism.
pub const MECHANISM: &'static str = "SCRAM-SHA-256";

/// Why an exchange fails.
#[derive(Debug, Clone, Copy, PartialEq, Eq)]
pub enum ScramError {
    Malformed(&'static str),
    ChannelBinding,
    Nonce,
    Proof,
    OutOfOrder,
}

/// Why an exchange fails, with the complaint as a text.
pub enum ScramFailure {
    Malformed(Seq<char>),
    ChannelBinding,
    Nonce,
    Proof,
    OutOfOrder,
}

impl View for ScramError {
    type V = ScramFailure;

    open spec fn view(&self) -> ScramFailure {
        match *self {
            ScramError::Malformed(complaint) => ScramFailure::Malformed(complaint@),
            ScramError::ChannelBinding => ScramFailure::ChannelBinding,
            ScramError::Nonce => ScramFailure::Nonce,
            ScramError::Proof => ScramFailure::Proof,
            ScramError::OutOfOrder => ScramFailure::OutOfOrder,
        }
    }
}

/// A failure in words.
pub open spec fn failure_text(failure: ScramFailure) -> Seq<char> {
    match failure {
        ScramFailure::Malformed(complaint) => "malformed SCRAM message: "@ + complaint,
        ScramFailure::ChannelBinding => "channel binding is not supported"@,
        ScramFailure::Nonce => "the client did not echo the nonce the server sent"@,
        ScramFailure::Proof => "the client proof does not match the stored verifier"@,
        ScramFailure::OutOfOrder => "a SCRAM message arrived out of order"@,
    }
}

impl ScramError {
    /// The failure in words.
    pub fn to_string(&self) -> (text: String)
        ensures
            text@ == failure_text(self@),
    {
        match self {
            ScramError::Malformed(complaint) => {
                let mut text = "malformed SCRAM message: ".to_owned();
                text.append(complaint);
                text
            },
            ScramError::ChannelBinding => "channel binding is not supported".to_owned(),
            ScramError::Nonce => "the client did not echo the nonce the server sent".to_owned(),
            ScramError::Proof => "the client proof does not match the stored verifier".to_owned(),
            ScramError::OutOfOrder => "a SCRAM message arrived out of order".to_owned(),
        }
    }
}

/// Why a text is no verifier.
#[derive(Debug, Clone, Copy, PartialEq, Eq)]
pub enum VerifierError {
    Mechanism,
    Malformed(&'static str),
    Iterations,
}

/// Why a text is no verifier, with the complaint as a text.
pub enum VerifierFailure {
    Mechanism,
    Malformed(Seq<char>),
    Iterations,
}

impl View for VerifierError {
    type V = VerifierFailure;

    open spec fn view(&self) -> VerifierFailure {
        match *self {
            VerifierError::Mechanism => VerifierFailure::Mechanism,
            VerifierError::Malformed(complaint) => VerifierFailure::Malformed(complaint@),
            VerifierError::Iterations => VerifierFailure::Iterations,
        }
    }
}

/// What is wrong with a verifier, in words.
pub open spec fn verifier_failure_text(failure: VerifierFailure) -> Seq<char> {
    match failure {
        VerifierFailure::Mechanism => {
            "not a SCRAM-SHA-256 verifier; expected `SCRAM-SHA-256$<iterations>:<salt>$<stored key>:<server key>`"@
        },
        VerifierFailure::Malformed(complaint) => "malformed SCRAM-SHA-256 verifier: "@ + complaint,
        VerifierFailure::Iterations => {
            "the iteration count of a SCRAM-SHA-256 verifier must be a positive number"@
        },
    }
}

impl VerifierError {
    /// What is wrong, in words.
    pub fn to_string(&self) -> (text: String)
        ensures
            text@ == verifier_failure_text(self@),
    {
        match self {
            VerifierError::Mechanism => {
                "not a SCRAM-SHA-256 verifier; expected `SCRAM-SHA-256$<iterations>:<salt>$<stored key>:<server key>`".to_owned()
            },
            VerifierError::Malformed(complaint) => {
                let mut text = "malformed SCRAM-SHA-256 verifier: ".to_owned();
                text.append(complaint);
                text
            },
            VerifierError::Iterations => {
                "the iteration count of a SCRAM-SHA-256 verifier must be a positive number".to_owned()
            },
        }
    }
}

/// The bytes of two keys, combined one by one.
pub open spec fn xor(a: Seq<u8>, b: Seq<u8>) -> Seq<u8> {
    Seq::new(a.len(), |i: int| a[i] ^ b[i])
}

/// The `n`-th code of the chain that salts a password: the first is that of the
/// salt and the block number 1, each other that of the one before it.
pub open spec fn chain(password: Seq<u8>, salt: Seq<u8>, n: nat) -> Seq<u8>
    decreases n,
{
    if n <= 1 {
        hmac_sha256(password, salt + seq![0u8, 0u8, 0u8, 1u8])
    } else {
        hmac_sha256(password, chain(password, salt, (n - 1) as nat))
    }
}

/// The salted password: all codes of the chain combined.
pub open spec fn salted(password: Seq<u8>, salt: Seq<u8>, iterations: nat) -> Seq<u8>
    decreases iterations,
{
    if iterations <= 1 {
        chain(password, salt, 1)
    } else {
        xor(salted(password, salt, (iterations - 1) as nat), chain(password, salt, iterations))
    }
}

/// What is kept of a password to prove it later.
#[verifier::ext_equal]
pub struct VerifierView {
    pub salt: Seq<u8>,
    pub iterations: u32,
    pub stored_key: Seq<u8>,
    pub server_key: Seq<u8>,
}

/// A password made ready to be salted: as SASLprep has it, or as it is where
/// SASLprep prohibits it.
pub open spec fn prepared(password: Seq<char>) -> Seq<char> {
    match saslprepped(password) {
        Some(text) => text,
        None => password,
    }
}

/// The salted form of a password.
pub open spec fn salted_password_of(password: Seq<char>, salt: Seq<u8>, iterations: u32) -> Seq<u8> {
    salted(encode_utf8(prepared(password)), salt, iterations as nat)
}

/// The bytes of an ASCII text.
pub open spec fn ascii(text: Seq<char>) -> Seq<u8> {
    encode_utf8(text)
}

/// The key with which a client proves that it knows the password.
pub open spec fn client_key_of(password: Seq<char>, salt: Seq<u8>, iterations: u32) -> Seq<u8> {
    hmac_sha256(salted_password_of(password, salt, iterations), ascii("Client Key"@))
}

/// The verifier of a password.
pub open spec fn verifier_of(password: Seq<char>, salt: Seq<u8>, iterations: u32) -> VerifierView {
    VerifierView {
        salt,
        iterations,
        stored_key: sha256(client_key_of(password, salt, iterations)),
        server_key: hmac_sha256(
            salted_password_of(password, salt, iterations),
            ascii("Server Key"@),
        ),
    }
}

/// What a node keeps of a user's password: enough to check a proof, and not
/// enough to make one.
#[derive(PartialEq, Eq)]
pub struct ScramVerifier {
    salt: Vec<u8>,
    iterations: u32,
    stored_key: Vec<u8>,
    server_key: Vec<u8>,
}

impl View for ScramVerifier {
    type V = VerifierView;

    closed spec fn view(&self) -> VerifierView {
        VerifierView {
            salt: self.salt@,
            iterations: self.iterations,
            stored_key: self.stored_key@,
            server_key: self.server_key@,
        }
    }
}

fn copy_bytes(bytes: &[u8]) -> (copy: Vec<u8>)
    ensures
        copy@ == bytes@,
{
    let mut copy: Vec<u8> = Vec::new();
    let mut i: usize = 0;
    while i < bytes.len()
        invariant
            i <= bytes@.len(),
            copy@ == bytes@.subrange(0, i as int),
        decreases bytes@.len() - i,
    {
        copy.push(bytes[i]);
        assert(bytes@.subrange(0, i + 1) =~= bytes@.subrange(0, i as int).push(bytes@[i as int]));
        i += 1;
    }
    assert(bytes@.subrange(0, i as int) =~= bytes@);
    copy
}

fn xor_bytes(a: &Vec<u8>, b: &Vec<u8>) -> (c: Vec<u8>)
    requires
        a@.len() == b@.len(),
    ensures
        c@ == xor(a@, b@),
{
    let mut c: Vec<u8> = Vec::new();
    let mut i: usize = 0;
    while i < a.len()
        invariant
            a@.len() == b@.len(),
            i <= a@.len(),
            c@.len() == i,
            forall|j: int| 0 <= j < i ==> #[trigger] c@[j] == a@[j] ^ b@[j],
        decreases a@.len() - i,
    {
        c.push(a[i] ^ b[i]);
        i += 1;
    }
    assert(c@ =~= xor(a@, b@));
    c
}

fn salted_password(password: &[u8], salt: &[u8], iterations: u32) -> (key: Vec<u8>)
    ensures
        key@ == salted(password@, salt@, iterations as nat),
        key@.len() == 32,
{
    let mut block = copy_bytes(salt);
    block.push(0);
    block.push(0);
    block.push(0);
    block.push(1);
    assert(block@ =~= salt@ + seq![0u8, 0u8, 0u8, 1u8]);
    let mut previous = hmac_of(password, block.as_slice());
    let mut key = copy_bytes(previous.as_slice());
    let mut n: u32 = 1;
    while n < iterations
        invariant
            1 <= n,
            n <= iterations || n == 1,
            previous@ == chain(password@, salt@, n as nat),
            previous@.len() == 32,
            key@ == salted(password@, salt@, n as nat),
            key@.len() == 32,
        decreases iterations - n,
    {
        previous = hmac_of(password, previous.as_slice());
        key = xor_bytes(&key, &previous);
        n += 1;
    }
    key
}

fn prepare(password: &str) -> (text: String)
    ensures
        text@ == prepared(password@),
{
    match saslprep_of(password) {
        Some(text) => text,
        None => password.to_owned(),
    }
}

/// A verifier as it is written: the mechanism, `$`, the iterations, `:`, the
/// salt, `$`, the stored key, `:`, the server key, where the salt and the keys
/// are base64 and the keys are 32 bytes long.
pub open spec fn verifier_in(text: Seq<char>) -> Result<VerifierView, VerifierFailure> {
    let prefix = "SCRAM-SHA-256$"@;
    if text.len() < prefix.len() || text.subrange(0, prefix.len() as int) != prefix {
        Err(VerifierFailure::Mechanism)
    } else {
        let body = text.subrange(prefix.len() as int, text.len() as int);
        match split_once(body, '$') {
            None => Err(VerifierFailure::Malformed("no `$` between the salt and the keys"@)),
            Some((parameters, keys)) => match split_once(parameters, ':') {
                None => Err(
                    VerifierFailure::Malformed("no `:` between the iterations and the salt"@),
                ),
                Some((iterations, salt)) => match split_once(keys, ':') {
                    None => Err(VerifierFailure::Malformed("no `:` between the two keys"@)),
                    Some((stored_key, server_key)) => verifier_of_parts(
                        iterations,
                        salt,
                        stored_key,
                        server_key,
                    ),
                },
            },
        }
    }
}

/// A key as it is written: base64 of 32 bytes.
pub open spec fn key_in(text: Seq<char>) -> Option<Seq<u8>> {
    match base64_decoded(text) {
        Some(bytes) => if bytes.len() == 32 {
            Some(bytes)
        } else {
            None
        },
        None => None,
    }
}

/// A verifier out of its written parts.
pub open spec fn verifier_of_parts(
    iterations: Seq<char>,
    salt: Seq<char>,
    stored_key: Seq<char>,
    server_key: Seq<char>,
) -> Result<VerifierView, VerifierFailure> {
    if number(iterations) is None || number(iterations) == Some(0u32) {
        Err(VerifierFailure::Iterations)
    } else if base64_decoded(salt) is None {
        Err(VerifierFailure::Malformed("the salt is not base64"@))
    } else if base64_decoded(salt)->0.len() == 0 {
        Err(VerifierFailure::Malformed("the salt is empty"@))
    } else if key_in(stored_key) is None {
        Err(VerifierFailure::Malformed("the stored key is not a base64 SHA-256 digest"@))
    } else if key_in(server_key) is None {
        Err(VerifierFailure::Malformed("the server key is not a base64 SHA-256 digest"@))
    } else {
        Ok(
            VerifierView {
                salt: base64_decoded(salt)->0,
                iterations: number(iterations)->0,
                stored_key: key_in(stored_key)->0,
                server_key: key_in(server_key)->0,
            },
        )
    }
}

/// Whether a verifier is one made up: that of the base64 text of 32 bytes, under
/// a salt of 16.
pub open spec fn is_mock(verifier: VerifierView) -> bool {
    exists|bytes: Seq<u8>, salt: Seq<u8>|
        bytes.len() == 32 && salt.len() == 16 && verifier == #[trigger] verifier_of(
            base64_encoded(bytes),
            salt,
            DEFAULT_ITERATIONS,
        )
}

/// A verifier or what is wrong with the text.
pub open spec fn verifier_outcome(result: Result<ScramVerifier, VerifierError>) -> Result<
    VerifierView,
    VerifierFailure,
> {
    match result {
        Ok(verifier) => Ok(verifier@),
        Err(error) => Err(error@),
    }
}

fn key(text: &Vec<char>) -> (bytes: Option<Vec<u8>>)
    ensures
        bytes is Some <==> key_in(text@) is Some,
        bytes matches Some(b) ==> key_in(text@) == Some(b@),
{
    match base64_decode(text_of(text).as_str()) {
        Some(bytes) => if bytes.len() == 32 {
            Some(bytes)
        } else {
            None
        },
        None => None,
    }
}

impl ScramVerifier {
    /// A key is 32 bytes long, and a salt short enough to be written.
    #[verifier::type_invariant]
    pub closed spec fn wf(self) -> bool {
        &&& self.salt@.len() <= usize::MAX / 4
        &&& self.stored_key@.len() == 32
        &&& self.server_key@.len() == 32
    }

    /// The verifier of a password.
    pub fn from_password(password: &str, salt: &[u8], iterations: u32) -> (verifier: Self)
        requires
            salt@.len() <= usize::MAX / 4,
        ensures
            verifier@ == verifier_of(password@, salt@, iterations),
    {
        let prepared = prepare(password);
        let salted = salted_password(prepared.as_str().as_bytes(), salt, iterations);
        let client_key = hmac_of(salted.as_slice(), "Client Key".as_bytes());
        ScramVerifier {
            salt: copy_bytes(salt),
            iterations,
            stored_key: sha256_of(client_key.as_slice()),
            server_key: hmac_of(salted.as_slice(), "Server Key".as_bytes()),
        }
    }

    /// A verifier that no password is known to: an exchange with it runs to its
    /// end, so that asking cannot tell whether a user exists.
    pub fn mock() -> (verifier: Self)
        ensures
            is_mock(verifier@),
    {
        let salt = random_bytes(16);
        let secret = random_bytes(32);
        let password = base64_encode(secret.as_slice());
        let verifier = ScramVerifier::from_password(
            password.as_str(),
            salt.as_slice(),
            DEFAULT_ITERATIONS,
        );
        assert(verifier@ == verifier_of(base64_encoded(secret@), salt@, DEFAULT_ITERATIONS));
        verifier
    }

    /// Reads a verifier as it is written.
    pub fn from_str(text: &str) -> (result: Result<Self, VerifierError>)
        requires
            encode_utf8(text@).len() <= usize::MAX / 4,
        ensures
            verifier_outcome(result) == verifier_in(text@),
    {
        let chars = chars_of(text);
        let prefix = chars_of("SCRAM-SHA-256$");
        if !starts_with(&chars, &prefix) {
            return Err(VerifierError::Mechanism);
        }
        let body = part(&chars, prefix.len(), chars.len());
        let (parameters, keys) = match split_at_char(&body, '$') {
            Some(parts) => parts,
            None => return Err(VerifierError::Malformed("no `$` between the salt and the keys")),
        };
        let (iterations, salt) = match split_at_char(&parameters, ':') {
            Some(parts) => parts,
            None => return Err(
                VerifierError::Malformed("no `:` between the iterations and the salt"),
            ),
        };
        let (stored_key, server_key) = match split_at_char(&keys, ':') {
            Some(parts) => parts,
            None => return Err(VerifierError::Malformed("no `:` between the two keys")),
        };
        let iterations: u32 = match parse_number(&iterations) {
            Some(iterations) => iterations,
            None => return Err(VerifierError::Iterations),
        };
        if iterations == 0 {
            return Err(VerifierError::Iterations);
        }
        let ghost salt_text = salt@;
        let salt = match base64_decode(text_of(&salt).as_str()) {
            Some(salt) => salt,
            None => return Err(VerifierError::Malformed("the salt is not base64")),
        };
        if salt.len() == 0 {
            return Err(VerifierError::Malformed("the salt is empty"));
        }
        let stored_key = match key(&stored_key) {
            Some(key) => key,
            None => return Err(
                VerifierError::Malformed("the stored key is not a base64 SHA-256 digest"),
            ),
        };
        let server_key = match key(&server_key) {
            Some(key) => key,
            None => return Err(
                VerifierError::Malformed("the server key is not a base64 SHA-256 digest"),
            ),
        };
        proof {
            lemma_part_is_shorter(text@, prefix@.len() as int, text@.len() as int);
            lemma_find(body@, '$');
            lemma_find(parameters@, ':');
            lemma_part_is_shorter(body@, 0, find(body@, '$'));
            lemma_part_is_shorter(parameters@, find(parameters@, ':') + 1, parameters@.len() as int);
        }
        Ok(ScramVerifier { salt, iterations, stored_key, server_key })
    }

    /// The verifier as it may be printed: without what it keeps secret.
    pub fn describe(&self) -> (text: String)
        ensures
            text@ == "ScramVerifier { iterations: "@ + decimal(self@.iterations as nat) + ", .. }"@,
    {
        let mut text = "ScramVerifier { iterations: ".to_owned();
        text.append(decimal_text(self.iterations as u64).as_str());
        text.append(", .. }");
        text
    }
}

proof fn lemma_encode_concat(a: Seq<char>, b: Seq<char>)
    ensures
        encode_utf8(a + b) == encode_utf8(a) + encode_utf8(b),
    decreases a.len(),
{
    if a.len() == 0 {
        assert(a + b =~= b);
        assert(encode_utf8(a) =~= Seq::empty());
    } else {
        assert((a + b).drop_first() =~= a.drop_first() + b);
        lemma_encode_concat(a.drop_first(), b);
        assert(encode_utf8(a + b) =~= encode_utf8(a) + encode_utf8(b));
    }
}

/// A part of a text is no longer than the text.
proof fn lemma_part_is_shorter(s: Seq<char>, from: int, to: int)
    requires
        0 <= from <= to <= s.len(),
    ensures
        encode_utf8(s.subrange(from, to)).len() <= encode_utf8(s).len(),
{
    let a = s.subrange(0, from);
    let b = s.subrange(from, to);
    let c = s.subrange(to, s.len() as int);
    assert(s =~= a + b + c);
    lemma_encode_concat(a + b, c);
    lemma_encode_concat(a, b);
}

impl Dup for ScramVerifier {
    fn dup(&self) -> (copy: Self) {
        proof {
            use_type_invariant(self);
        }
        ScramVerifier {
            salt: copy_bytes(self.salt.as_slice()),
            iterations: self.iterations,
            stored_key: copy_bytes(self.stored_key.as_slice()),
            server_key: copy_bytes(self.server_key.as_slice()),
        }
    }
}

impl Clone for ScramVerifier {
    fn clone(&self) -> (copy: Self)
        ensures
            copy@ == self@,
    {
        self.dup()
    }
}

/// Whether a text is a nonce: the base64 text of 18 bytes.
pub open spec fn is_nonce(text: Seq<char>) -> bool {
    exists|bytes: Seq<u8>| bytes.len() == 18 && text == #[trigger] base64_encoded(bytes)
}

/// A nonce: base64 of 18 random bytes.
pub fn nonce() -> (text: String)
    ensures
        is_nonce(text@),
{
    let bytes = random_bytes(18);
    let text = base64_encode(bytes.as_slice());
    assert(bytes@.len() == 18 && text@ == base64_encoded(bytes@));
    text
}


/// The value of the first attribute of a message whose name is `key`: attributes
/// stand between commas, each a name, `=` and a value.
pub open spec fn attribute_in(message: Seq<char>, key: char) -> Option<Seq<char>>
    decreases message.len(),
{
    let end = find(message, ',');
    let first = message.subrange(0, end);
    if first.len() >= 2 && first[0] == key && first[1] == '=' {
        Some(first.subrange(2, first.len() as int))
    } else if 0 <= end < message.len() {
        attribute_in(message.subrange(end + 1, message.len() as int), key)
    } else {
        None
    }
}

/// The header and the rest of a client-first message, where the header asks for
/// no channel binding.
pub open spec fn header_split(message: Seq<char>) -> Result<(Seq<char>, Seq<char>), ScramFailure> {
    let flag_end = find(message, ',');
    if flag_end >= message.len() {
        Err(ScramFailure::Malformed("the client-first message has no GS2 header"@))
    } else {
        let rest = message.subrange(flag_end + 1, message.len() as int);
        let header_end = flag_end + 1 + find(rest, ',');
        let flag = message.subrange(0, flag_end);
        if header_end >= message.len() {
            Err(ScramFailure::Malformed("the GS2 header has no authzid field"@))
        } else if flag == seq!['n'] || flag == seq!['y'] {
            Ok(
                (
                    message.subrange(0, header_end + 1),
                    message.subrange(header_end + 1, message.len() as int),
                ),
            )
        } else if flag.len() >= 2 && flag[0] == 'p' && flag[1] == '=' {
            Err(ScramFailure::ChannelBinding)
        } else {
            Err(
                ScramFailure::Malformed(
                    "the GS2 header has an unknown channel-binding flag"@,
                ),
            )
        }
    }
}

/// What the server has said, and waits to see proved.
#[verifier::ext_equal]
pub struct ChallengeView {
    pub gs2_header: Seq<char>,
    pub client_first_bare: Seq<char>,
    pub server_first: Seq<char>,
    pub nonce: Seq<char>,
}

/// How far an exchange has come.
pub enum ExchangeState {
    Start,
    AwaitingProof(ChallengeView),
    Done,
}

/// An exchange: the verifier of the user, the server's nonce, and how far it has
/// come.
pub struct ExchangeView {
    pub verifier: VerifierView,
    pub server_nonce: Seq<char>,
    pub state: ExchangeState,
}

/// The server-first message with that nonce, that text of a salt and so many
/// iterations.
pub open spec fn first_text(nonce: Seq<char>, salt: Seq<char>, iterations: u32) -> Seq<char> {
    "r="@ + nonce + ",s="@ + salt + ",i="@ + decimal(iterations as nat)
}

/// The server-first message.
pub open spec fn server_first_text(verifier: VerifierView, nonce: Seq<char>) -> Seq<char> {
    first_text(nonce, base64_encoded(verifier.salt), verifier.iterations)
}

/// Whether a text has the shape of a server-first message with that nonce and
/// so many iterations, to a salt of so many bytes: the salt is written in as
/// many symbols as those take, and none of them is a comma.
pub open spec fn first_shaped(
    text: Seq<char>,
    nonce: Seq<char>,
    salt_bytes: nat,
    iterations: u32,
) -> bool {
    exists|salt: Seq<char>|
        salt.len() == base64_symbols(salt_bytes) && !salt.contains(',')
            && text == #[trigger] first_text(nonce, salt, iterations)
}

/// What the proof is made over: the client's first message without its header,
/// the server's answer to it, and the client's final message without the proof.
pub open spec fn auth_message(challenge: ChallengeView, without_proof: Seq<char>) -> Seq<char> {
    challenge.client_first_bare + ","@ + challenge.server_first + ","@ + without_proof
}

impl ExchangeView {
    /// What a client-first message is answered.
    pub open spec fn first(self, message: Seq<u8>) -> Result<ChallengeView, ScramFailure> {
        if !(self.state is Start) {
            Err(ScramFailure::OutOfOrder)
        } else if !valid_utf8(message) {
            Err(ScramFailure::Malformed("the client-first message is not valid UTF-8"@))
        } else {
            match header_split(decode_utf8(message)) {
                Err(failure) => Err(failure),
                Ok((header, bare)) => match attribute_in(bare, 'r') {
                    None => Err(
                        ScramFailure::Malformed("the client-first message has no nonce"@),
                    ),
                    Some(client_nonce) => {
                        let nonce = client_nonce + self.server_nonce;
                        Ok(
                            ChallengeView {
                                gs2_header: header,
                                client_first_bare: bare,
                                server_first: server_first_text(self.verifier, nonce),
                                nonce,
                            },
                        )
                    },
                },
            }
        }
    }

    /// Whether a proof is that of whoever knows the password.
    pub open spec fn proves(self, proof: Seq<char>, auth: Seq<char>) -> Result<(), ScramFailure> {
        match base64_decoded(proof) {
            None => Err(ScramFailure::Malformed("the client proof is not base64"@)),
            Some(bytes) => {
                let signature = hmac_sha256(self.verifier.stored_key, encode_utf8(auth));
                if bytes.len() == 32 && sha256(xor(bytes, signature)) == self.verifier.stored_key {
                    Ok(())
                } else {
                    Err(ScramFailure::Proof)
                }
            },
        }
    }

    /// What a client-final message is answered, once a challenge was sent.
    pub open spec fn answered(self, challenge: ChallengeView, message: Seq<u8>) -> Result<
        Seq<char>,
        ScramFailure,
    > {
        if !valid_utf8(message) {
            Err(ScramFailure::Malformed("the client-final message is not valid UTF-8"@))
        } else {
            let text = decode_utf8(message);
            let at = rfind(text, seq![',', 'p', '=']);
            if at < 0 {
                Err(ScramFailure::Malformed("the client-final message has no proof"@))
            } else {
                let without_proof = text.subrange(0, at);
                let proof = text.subrange(at + 3, text.len() as int);
                let auth = auth_message(challenge, without_proof);
                match attribute_in(without_proof, 'c') {
                    None => Err(
                        ScramFailure::Malformed(
                            "the client-final message has no channel-binding attribute"@,
                        ),
                    ),
                    Some(echoed) => if echoed != base64_encoded(
                        encode_utf8(challenge.gs2_header),
                    ) {
                        Err(ScramFailure::ChannelBinding)
                    } else {
                        match attribute_in(without_proof, 'r') {
                            None => Err(
                                ScramFailure::Malformed("the client-final message has no nonce"@),
                            ),
                            Some(nonce) => if nonce != challenge.nonce {
                                Err(ScramFailure::Nonce)
                            } else {
                                match self.proves(proof, auth) {
                                    Err(failure) => Err(failure),
                                    Ok(()) => Ok(
                                        "v="@ + base64_encoded(
                                            hmac_sha256(
                                                self.verifier.server_key,
                                                encode_utf8(auth),
                                            ),
                                        ),
                                    ),
                                }
                            },
                        }
                    },
                }
            }
        }
    }
}

/// What a client sends in an exchange.
pub enum Turn {
    First(Seq<u8>),
    Final(Seq<u8>),
}

impl ExchangeView {
    /// Where a message leaves an exchange, and what it is answered. A challenge
    /// is made once, and answered once, whatever the answer says.
    pub open spec fn turn(self, turn: Turn) -> (ExchangeView, Result<Seq<char>, ScramFailure>) {
        match turn {
            Turn::First(message) => match self.first(message) {
                Ok(challenge) => (
                    ExchangeView { state: ExchangeState::AwaitingProof(challenge), ..self },
                    Ok(challenge.server_first),
                ),
                Err(failure) => (self, Err(failure)),
            },
            Turn::Final(message) => match self.state {
                ExchangeState::AwaitingProof(challenge) => (
                    ExchangeView { state: ExchangeState::Done, ..self },
                    self.answered(challenge, message),
                ),
                _ => (self, Err(ScramFailure::OutOfOrder)),
            },
        }
    }

    /// Where some messages leave an exchange, one after another.
    pub open spec fn after(self, turns: Seq<Turn>) -> ExchangeView
        decreases turns.len(),
    {
        if turns.len() == 0 {
            self
        } else {
            self.after(turns.drop_last()).turn(turns.last()).0
        }
    }

    /// What the `k`-th of some messages is answered.
    pub open spec fn answer_to(self, turns: Seq<Turn>, k: int) -> Result<Seq<char>, ScramFailure> {
        self.after(turns.subrange(0, k)).turn(turns[k]).1
    }
}

/// An answer, with texts as sequences.
pub open spec fn answer_view(answer: Result<String, ScramError>) -> Result<
    Seq<char>,
    ScramFailure,
> {
    match answer {
        Ok(text) => Ok(text@),
        Err(error) => Err(error@),
    }
}

/// What the server has said, and waits to see proved.
struct Challenge {
    gs2_header: String,
    client_first_bare: String,
    server_first: String,
    nonce: String,
}

impl Challenge {
    /// The header is short enough to be written in base64.
    #[verifier::type_invariant]
    spec fn wf(self) -> bool {
        encode_utf8(self.gs2_header@).len() <= usize::MAX / 4
    }

    spec fn view(&self) -> ChallengeView {
        ChallengeView {
            gs2_header: self.gs2_header@,
            client_first_bare: self.client_first_bare@,
            server_first: self.server_first@,
            nonce: self.nonce@,
        }
    }
}

enum State {
    Start,
    AwaitingProof(Challenge),
    Done,
}

/// The server's side of one exchange.
pub struct ScramExchange {
    verifier: ScramVerifier,
    server_nonce: String,
    state: State,
}

impl View for ScramExchange {
    type V = ExchangeView;

    closed spec fn view(&self) -> ExchangeView {
        ExchangeView {
            verifier: self.verifier@,
            server_nonce: self.server_nonce@,
            state: match self.state {
                State::Start => ExchangeState::Start,
                State::AwaitingProof(challenge) => ExchangeState::AwaitingProof(challenge.view()),
                State::Done => ExchangeState::Done,
            },
        }
    }
}

fn attribute(message: &Vec<char>, key: char) -> (value: Option<Vec<char>>)
    ensures
        value is Some <==> attribute_in(message@, key) is Some,
        value matches Some(v) ==> attribute_in(message@, key) == Some(v@),
{
    let mut from: usize = 0;
    assert(message@.subrange(0, message@.len() as int) =~= message@);
    loop
        invariant
            from <= message@.len(),
            attribute_in(message@, key) == attribute_in(
                message@.subrange(from as int, message@.len() as int),
                key,
            ),
        decreases message@.len() - from,
    {
        let ghost rest = message@.subrange(from as int, message@.len() as int);
        let end: usize = find_char(message, ',', from);
        let ghost first = rest.subrange(0, end - from);
        assert(first =~= message@.subrange(from as int, end as int));
        if end - from >= 2 && message[from] == key && message[from + 1] == '=' {
            let value = part(message, from + 2, end);
            assert(value@ =~= first.subrange(2, first.len() as int));
            return Some(value);
        }
        if end >= message.len() {
            return None;
        }
        assert(rest.subrange(end - from + 1, rest.len() as int) =~= message@.subrange(
            end + 1,
            message@.len() as int,
        ));
        from = end + 1;
    }
}

fn split_gs2_header(message: &Vec<char>) -> (result: Result<(Vec<char>, Vec<char>), ScramError>)
    ensures
        match result {
            Ok((header, bare)) => header_split(message@) == Ok::<_, ScramFailure>(
                (header@, bare@),
            ),
            Err(error) => header_split(message@) == Err::<(Seq<char>, Seq<char>), _>(error@),
        },
        result matches Ok((header, _)) ==> header@.len() <= message@.len() && header@
            == message@.subrange(0, header@.len() as int),
{
    assert(message@.subrange(0, message@.len() as int) =~= message@);
    let flag_end: usize = find_char(message, ',', 0);
    if flag_end >= message.len() {
        return Err(ScramError::Malformed("the client-first message has no GS2 header"));
    }
    let header_end: usize = find_char(message, ',', flag_end + 1);
    if header_end >= message.len() {
        return Err(ScramError::Malformed("the GS2 header has no authzid field"));
    }
    let ghost flag = message@.subrange(0, flag_end as int);
    if flag_end == 1 && (message[0] == 'n' || message[0] == 'y') {
        assert(flag =~= seq!['n'] || flag =~= seq!['y']);
        return Ok((part(message, 0, header_end + 1), part(message, header_end + 1, message.len())));
    }
    proof {
        if flag == seq!['n'] || flag == seq!['y'] {
            assert(flag.len() == 1 && flag[0] == message@[0]);
            assert(false);
        }
    }
    if flag_end >= 2 && message[0] == 'p' && message[1] == '=' {
        return Err(ScramError::ChannelBinding);
    }
    Err(ScramError::Malformed("the GS2 header has an unknown channel-binding flag"))
}

impl ScramExchange {
    pub fn new(verifier: ScramVerifier, server_nonce: String) -> (exchange: Self)
        ensures
            exchange@ == (ExchangeView {
                verifier: verifier@,
                server_nonce: server_nonce@,
                state: ExchangeState::Start,
            }),
    {
        ScramExchange { verifier, server_nonce, state: State::Start }
    }

    /// Answers a client-first message.
    pub fn server_first(&mut self, client_first: &[u8]) -> (result: Result<String, ScramError>)
        requires
            client_first@.len() <= usize::MAX / 4,
        ensures
            final(self)@ == old(self)@.turn(Turn::First(client_first@)).0,
            answer_view(result) == old(self)@.turn(Turn::First(client_first@)).1,
            result matches Ok(text) ==> first_shaped(
                text@,
                old(self)@.first(client_first@)->Ok_0.nonce,
                old(self)@.verifier.salt.len(),
                old(self)@.verifier.iterations,
            ),
    {
        match self.state {
            State::Start => {},
            _ => return Err(ScramError::OutOfOrder),
        }
        let message = match utf8_text(client_first) {
            Some(message) => chars_of(message),
            None => return Err(
                ScramError::Malformed("the client-first message is not valid UTF-8"),
            ),
        };
        let (header, bare) = match split_gs2_header(&message) {
            Ok(parts) => parts,
            Err(error) => return Err(error),
        };
        let client_nonce = match attribute(&bare, 'r') {
            Some(nonce) => nonce,
            None => return Err(ScramError::Malformed("the client-first message has no nonce")),
        };
        let mut nonce = text_of(&client_nonce);
        nonce.append(self.server_nonce.as_str());
        proof {
            use_type_invariant(&self.verifier);
            lemma_part_is_shorter(message@, 0, header@.len() as int);
        }
        let mut server_first = "r=".to_owned();
        server_first.append(nonce.as_str());
        server_first.append(",s=");
        let salt = base64_encode(self.verifier.salt.as_slice());
        server_first.append(salt.as_str());
        server_first.append(",i=");
        server_first.append(decimal_text(self.verifier.iterations as u64).as_str());
        let challenge = Challenge {
            gs2_header: text_of(&header),
            client_first_bare: text_of(&bare),
            server_first: server_first.clone(),
            nonce,
        };
        assert(server_first@ == first_text(challenge.nonce@, salt@, self.verifier.iterations));
        self.state = State::AwaitingProof(challenge);
        Ok(server_first)
    }

    /// Answers a client-final message: once, whatever it says.
    pub fn server_final(&mut self, client_final: &[u8]) -> (result: Result<String, ScramError>)
        ensures
            final(self)@ == old(self)@.turn(Turn::Final(client_final@)).0,
            answer_view(result) == old(self)@.turn(Turn::Final(client_final@)).1,
    {
        let mut state = State::Done;
        std::mem::swap(&mut self.state, &mut state);
        match state {
            State::AwaitingProof(challenge) => self.final_answer(&challenge, client_final),
            other => {
                self.state = other;
                Err(ScramError::OutOfOrder)
            },
        }
    }

    fn final_answer(&self, challenge: &Challenge, client_final: &[u8]) -> (result: Result<
        String,
        ScramError,
    >)
        ensures
            match self@.answered(challenge.view(), client_final@) {
                Ok(text) => result matches Ok(answer) && answer@ == text,
                Err(failure) => result matches Err(error) && error@ == failure,
            },
    {
        let text = match utf8_text(client_final) {
            Some(text) => chars_of(text),
            None => return Err(
                ScramError::Malformed("the client-final message is not valid UTF-8"),
            ),
        };
        let mut marker: Vec<char> = Vec::new();
        marker.push(',');
        marker.push('p');
        marker.push('=');
        assert(marker@ =~= seq![',', 'p', '=']);
        let at: usize = match find_last(&text, &marker) {
            Some(at) => at,
            None => return Err(ScramError::Malformed("the client-final message has no proof")),
        };
        let end: usize = text.len();
        let without_proof = part(&text, 0, at);
        let proof_text = text_of(&part(&text, at + marker.len(), end));
        let echoed = match attribute(&without_proof, 'c') {
            Some(echoed) => echoed,
            None => return Err(
                ScramError::Malformed("the client-final message has no channel-binding attribute"),
            ),
        };
        proof {
            use_type_invariant(challenge);
        }
        let header = base64_encode(challenge.gs2_header.as_str().as_bytes());
        if !same_chars(&echoed, &chars_of(header.as_str())) {
            return Err(ScramError::ChannelBinding);
        }
        let nonce = match attribute(&without_proof, 'r') {
            Some(nonce) => nonce,
            None => return Err(ScramError::Malformed("the client-final message has no nonce")),
        };
        if !same_chars(&nonce, &chars_of(challenge.nonce.as_str())) {
            return Err(ScramError::Nonce);
        }
        let mut auth = challenge.client_first_bare.clone();
        auth.append(",");
        auth.append(challenge.server_first.as_str());
        auth.append(",");
        auth.append(text_of(&without_proof).as_str());
        match self.verify_proof(proof_text.as_str(), auth.as_str()) {
            Ok(()) => {},
            Err(error) => return Err(error),
        }
        let mut answer = "v=".to_owned();
        let signature = hmac_of(self.verifier.server_key.as_slice(), auth.as_str().as_bytes());
        answer.append(base64_encode(signature.as_slice()).as_str());
        Ok(answer)
    }

    fn verify_proof(&self, proof: &str, auth_message: &str) -> (result: Result<(), ScramError>)
        ensures
            match self@.proves(proof@, auth_message@) {
                Ok(()) => result is Ok,
                Err(failure) => result matches Err(error) && error@ == failure,
            },
    {
        let proof = match base64_decode(proof) {
            Some(proof) => proof,
            None => return Err(ScramError::Malformed("the client proof is not base64")),
        };
        if proof.len() != 32 {
            return Err(ScramError::Proof);
        }
        let signature = hmac_of(self.verifier.stored_key.as_slice(), auth_message.as_bytes());
        let client_key = xor_bytes(&proof, &signature);
        let stored = sha256_of(client_key.as_slice());
        if same_bytes(stored.as_slice(), self.verifier.stored_key.as_slice()) {
            Ok(())
        } else {
            Err(ScramError::Proof)
        }
    }
}


/// A text without a comma is one attribute.
proof fn lemma_attribute_first(name: char, value: Seq<char>, rest: Seq<char>)
    requires
        !value.contains(','),
        name != ',',
        rest.len() > 0 ==> rest[0] == ',',
    ensures
        attribute_in(seq![name, '='] + value + rest, name) == Some(value),
{
    let message = seq![name, '='] + value + rest;
    let end = 2 + value.len() as int;
    assert forall|j: int| 0 <= j < end implies message[j] != ',' by {
        if j >= 2 {
            assert(message[j] == value[j - 2]);
            assert(value.contains(value[j - 2]));
        }
    }
    lemma_found(message, ',', end);
    let first = message.subrange(0, end);
    assert(first.subrange(2, first.len() as int) =~= value);
}

/// The attribute behind a first one of another name.
proof fn lemma_attribute_second(
    first_name: char,
    first_value: Seq<char>,
    name: char,
    value: Seq<char>,
)
    requires
        !first_value.contains(','),
        !value.contains(','),
        first_name != name,
        first_name != ',',
        name != ',',
    ensures
        attribute_in(
            seq![first_name, '='] + first_value + (seq![','] + (seq![name, '='] + value)),
            name,
        ) == Some(value),
{
    let rest = seq![','] + (seq![name, '='] + value);
    let message = seq![first_name, '='] + first_value + rest;
    let end = 2 + first_value.len() as int;
    assert forall|j: int| 0 <= j < end implies message[j] != ',' by {
        if j >= 2 {
            assert(message[j] == first_value[j - 2]);
            assert(first_value.contains(first_value[j - 2]));
        }
    }
    lemma_found(message, ',', end);
    assert(message.subrange(0, end)[0] == first_name);
    let behind = message.subrange(end + 1, message.len() as int);
    assert(behind =~= seq![name, '='] + value + Seq::empty());
    lemma_attribute_first(name, value, Seq::empty());
}

/// A proof that holds no comma stands behind the last `,p=`.
proof fn lemma_proof_found(before: Seq<char>, proof: Seq<char>)
    requires
        !proof.contains(','),
    ensures
        rfind(before + seq![',', 'p', '='] + proof, seq![',', 'p', '=']) == before.len(),
    decreases proof.len(),
{
    let marker = seq![',', 'p', '='];
    let text = before + marker + proof;
    let tail = text.subrange(text.len() - 3, text.len() as int);
    if proof.len() == 0 {
        assert(tail =~= marker);
    } else {
        let shorter = proof.drop_last();
        assert(!shorter.contains(',')) by {
            if shorter.contains(',') {
                let j = choose|j: int| 0 <= j < shorter.len() && shorter[j] == ',';
                assert(proof[j] == ',');
            }
        }
        assert(text.drop_last() =~= before + marker + shorter);
        lemma_proof_found(before, shorter);
        if tail == marker {
            assert(tail[0] == ',' && tail[2] == '=');
            if proof.len() >= 3 {
                assert(tail[0] == proof[proof.len() - 3]);
            } else if proof.len() == 2 {
                assert(tail[0] == marker[2]);
            } else {
                assert(tail[0] == marker[1]);
            }
            assert(false);
        }
    }
}

proof fn lemma_xor_twice(a: Seq<u8>, b: Seq<u8>)
    requires
        a.len() == b.len(),
    ensures
        xor(xor(a, b), b) == a,
{
    assert forall|i: int| 0 <= i < a.len() implies xor(xor(a, b), b)[i] == a[i] by {
        let x = a[i];
        let y = b[i];
        assert((x ^ y) ^ y == x) by (bit_vector);
    }
    assert(xor(xor(a, b), b) =~= a);
}

/// The client-final message of a client: the header it sent, the nonce, and its
/// proof.
pub open spec fn client_final_text(
    challenge: ChallengeView,
    proof: Seq<char>,
) -> Seq<char> {
    client_final_bare(challenge) + seq![',', 'p', '='] + proof
}

/// The client-final message without the proof.
pub open spec fn client_final_bare(challenge: ChallengeView) -> Seq<char> {
    seq!['c', '='] + base64_encoded(encode_utf8(challenge.gs2_header)) + (seq![','] + (seq![
        'r',
        '=',
    ] + challenge.nonce))
}

/// A full exchange proves the client to the server and the server to the
/// client: whoever knows the password that the verifier was made of can make a
/// proof that the server accepts, and the server answers it with the signature
/// that only the verifier's server key makes.
pub proof fn law_whoever_knows_the_password_is_accepted(
    exchange: ExchangeView,
    challenge: ChallengeView,
    password: Seq<char>,
    salt: Seq<u8>,
    iterations: u32,
    proof: Seq<char>,
)
    requires
        exchange.verifier == verifier_of(password, salt, iterations),
        ({
            let auth = auth_message(challenge, client_final_bare(challenge));
            let key = client_key_of(password, salt, iterations);
            let signature = hmac_sha256(sha256(key), encode_utf8(auth));
            &&& key.len() == 32
            &&& signature.len() == 32
            &&& base64_decoded(proof) == Some(xor(key, signature))
        }),
        !base64_encoded(encode_utf8(challenge.gs2_header)).contains(','),
        !challenge.nonce.contains(','),
        !proof.contains(','),
    ensures
        exchange.answered(challenge, encode_utf8(client_final_text(challenge, proof)))
            == Ok::<Seq<char>, ScramFailure>(
            "v="@ + base64_encoded(
                hmac_sha256(
                    exchange.verifier.server_key,
                    encode_utf8(auth_message(challenge, client_final_bare(challenge))),
                ),
            ),
        ),
{
    let text = client_final_text(challenge, proof);
    let bare = client_final_bare(challenge);
    let message = encode_utf8(text);
    encode_utf8_valid_utf8(text);
    encode_utf8_decode_utf8(text);
    lemma_proof_found(bare, proof);
    let at = rfind(text, seq![',', 'p', '=']);
    assert(text.subrange(0, at) =~= bare);
    assert(text.subrange(at + 3, text.len() as int) =~= proof);
    lemma_attribute_first(
        'c',
        base64_encoded(encode_utf8(challenge.gs2_header)),
        seq![','] + (seq!['r', '='] + challenge.nonce),
    );
    lemma_attribute_second(
        'c',
        base64_encoded(encode_utf8(challenge.gs2_header)),
        'r',
        challenge.nonce,
    );
    let auth = auth_message(challenge, bare);
    let key = client_key_of(password, salt, iterations);
    let signature = hmac_sha256(sha256(key), encode_utf8(auth));
    lemma_xor_twice(key, signature);
}

/// A nonce other than the one the server sent is refused, whatever the proof.
pub proof fn law_another_nonce_is_refused(
    exchange: ExchangeView,
    challenge: ChallengeView,
    nonce: Seq<char>,
    proof: Seq<char>,
)
    requires
        nonce != challenge.nonce,
        !base64_encoded(encode_utf8(challenge.gs2_header)).contains(','),
        !nonce.contains(','),
        !proof.contains(','),
    ensures
        exchange.answered(
            challenge,
            encode_utf8(
                client_final_text(ChallengeView { nonce, ..challenge }, proof),
            ),
        ) == Err::<Seq<char>, ScramFailure>(ScramFailure::Nonce),
{
    let sent = ChallengeView { nonce, ..challenge };
    let text = client_final_text(sent, proof);
    let bare = client_final_bare(sent);
    encode_utf8_valid_utf8(text);
    encode_utf8_decode_utf8(text);
    lemma_proof_found(bare, proof);
    let at = rfind(text, seq![',', 'p', '=']);
    assert(text.subrange(0, at) =~= bare);
    lemma_attribute_first(
        'c',
        base64_encoded(encode_utf8(challenge.gs2_header)),
        seq![','] + (seq!['r', '='] + nonce),
    );
    lemma_attribute_second('c', base64_encoded(encode_utf8(challenge.gs2_header)), 'r', nonce);
}

/// The client's nonce in a client-first message.
pub open spec fn client_nonce_in(message: Seq<u8>) -> Seq<char> {
    attribute_in(header_split(decode_utf8(message))->Ok_0.1, 'r')->0
}

/// The server-first message with that nonce and that text of a salt, and the
/// default number of iterations.
pub open spec fn default_first_text(nonce: Seq<char>, salt: Seq<char>) -> Seq<char> {
    "r="@ + nonce + ",s="@ + salt + ",i=4096"@
}

/// A made-up verifier answers as a real one does: where the client-first
/// message is taken, the answer names the client's nonce followed by the
/// server's, a salt of 24 symbols and 4096 iterations, as it does for a real
/// verifier with a salt of 16 bytes and the default number of iterations.
pub proof fn law_a_made_up_verifier_answers_as_a_real_one_does(
    exchange: ExchangeView,
    message: Seq<u8>,
    text: Seq<char>,
)
    requires
        is_mock(exchange.verifier) || (exchange.verifier.salt.len() == 16
            && exchange.verifier.iterations == DEFAULT_ITERATIONS),
        exchange.first(message) is Ok,
        first_shaped(
            text,
            exchange.first(message)->Ok_0.nonce,
            exchange.verifier.salt.len(),
            exchange.verifier.iterations,
        ),
    ensures
        exists|salt: Seq<char>|
            salt.len() == 24 && !salt.contains(',') && text == #[trigger] default_first_text(
                client_nonce_in(message) + exchange.server_nonce,
                salt,
            ),
{
    let nonce = client_nonce_in(message) + exchange.server_nonce;
    let salt = choose|salt: Seq<char>|
        salt.len() == base64_symbols(16) && !salt.contains(',') && text == #[trigger] first_text(
            nonce,
            salt,
            DEFAULT_ITERATIONS,
        );
    reveal_strlit(",i=");
    reveal_strlit(",i=4096");
    assert(decimal(4) =~= seq!['4']);
    assert(decimal(40) =~= seq!['4', '0']);
    assert(decimal(409) =~= seq!['4', '0', '9']);
    assert(decimal(4096) =~= seq!['4', '0', '9', '6']);
    assert(text =~= default_first_text(nonce, salt));
}

/// Nothing is proved before a challenge: as long as no client-first message was
/// answered, a client-final message is out of order, and the exchange still
/// takes a client-first message.
pub proof fn law_nothing_is_proved_before_a_challenge(
    exchange: ExchangeView,
    turns: Seq<Turn>,
    k: int,
)
    requires
        exchange.state is Start,
        0 <= k < turns.len(),
        forall|j: int|
            0 <= j < k && turns[j] is First ==> #[trigger] exchange.answer_to(turns, j) is Err,
    ensures
        exchange.after(turns.subrange(0, k)) == exchange,
        turns[k] is Final ==> exchange.answer_to(turns, k) == Err::<Seq<char>, ScramFailure>(
            ScramFailure::OutOfOrder,
        ),
    decreases k,
{
    let before = turns.subrange(0, k);
    if k > 0 {
        law_nothing_is_proved_before_a_challenge(exchange, turns, k - 1);
        assert(before.drop_last() =~= turns.subrange(0, k - 1));
        assert(turns[k - 1] is First ==> exchange.answer_to(turns, k - 1) is Err);
    }
}

/// An exchange that is done stays so.
proof fn lemma_done_for_good(exchange: ExchangeView, turns: Seq<Turn>, j: int, k: int)
    requires
        0 <= j <= k <= turns.len(),
        exchange.after(turns.subrange(0, j)).state is Done,
    ensures
        exchange.after(turns.subrange(0, k)).state is Done,
    decreases k - j,
{
    if j < k {
        lemma_done_for_good(exchange, turns, j, k - 1);
        assert(turns.subrange(0, k).drop_last() =~= turns.subrange(0, k - 1));
    }
}

/// A challenge takes one proof: once a client-final message was answered to it,
/// with success or without, every later message is out of order.
pub proof fn law_a_challenge_takes_one_proof(
    exchange: ExchangeView,
    turns: Seq<Turn>,
    j: int,
    k: int,
)
    requires
        0 <= j < k < turns.len(),
        turns[j] is Final,
        exchange.after(turns.subrange(0, j)).state is AwaitingProof,
    ensures
        exchange.answer_to(turns, k) == Err::<Seq<char>, ScramFailure>(ScramFailure::OutOfOrder),
        exchange.after(turns.subrange(0, k)).state is Done,
{
    assert(turns.subrange(0, j + 1).drop_last() =~= turns.subrange(0, j));
    lemma_done_for_good(exchange, turns, j + 1, k);
}

/// Once a client-first message was answered, the exchange waits for a proof
/// until a client-final message comes, and takes no other client-first message.
pub proof fn law_a_challenge_is_made_once(
    exchange: ExchangeView,
    turns: Seq<Turn>,
    j: int,
    k: int,
)
    requires
        0 <= j < k < turns.len(),
        turns[j] is First,
        exchange.answer_to(turns, j) is Ok,
        forall|n: int| j < n < k ==> #[trigger] turns[n] is First,
    ensures
        exchange.after(turns.subrange(0, k)).state is AwaitingProof,
        turns[k] is First ==> exchange.answer_to(turns, k) == Err::<Seq<char>, ScramFailure>(
            ScramFailure::OutOfOrder,
        ),
    decreases k - j,
{
    assert(turns.subrange(0, k).drop_last() =~= turns.subrange(0, k - 1));
    if k - 1 > j {
        law_a_challenge_is_made_once(exchange, turns, j, k - 1);
    }
}

impl VerifierView {
    /// Whether a proof is one to that challenge of whoever knows the password:
    /// what it hides under the signature of the exchange is a key whose digest is
    /// the stored key.
    pub open spec fn fits_proof(self, proof: Seq<u8>, challenge: ChallengeView) -> bool {
        let auth = auth_message(challenge, client_final_bare(challenge));
        let signature = hmac_sha256(self.stored_key, encode_utf8(auth));
        proof.len() == 32 && sha256(xor(proof, signature)) == self.stored_key
    }
}

/// What a client that answers a challenge as it should is told rests on its
/// proof alone: it is accepted exactly where the proof fits the verifier, real
/// or made up, and else told that the proof is wrong.
pub proof fn law_only_the_proof_decides(
    exchange: ExchangeView,
    challenge: ChallengeView,
    proof: Seq<char>,
)
    requires
        base64_decoded(proof) is Some,
        !base64_encoded(encode_utf8(challenge.gs2_header)).contains(','),
        !challenge.nonce.contains(','),
        !proof.contains(','),
    ensures
        match exchange.answered(challenge, encode_utf8(client_final_text(challenge, proof))) {
            Ok(_) => exchange.verifier.fits_proof(base64_decoded(proof)->0, challenge),
            Err(failure) => failure == ScramFailure::Proof && !exchange.verifier.fits_proof(
                base64_decoded(proof)->0,
                challenge,
            ),
        },
{
    let text = client_final_text(challenge, proof);
    let bare = client_final_bare(challenge);
    encode_utf8_valid_utf8(text);
    encode_utf8_decode_utf8(text);
    lemma_proof_found(bare, proof);
    let at = rfind(text, seq![',', 'p', '=']);
    assert(text.subrange(0, at) =~= bare);
    assert(text.subrange(at + 3, text.len() as int) =~= proof);
    lemma_attribute_first(
        'c',
        base64_encoded(encode_utf8(challenge.gs2_header)),
        seq![','] + (seq!['r', '='] + challenge.nonce),
    );
    lemma_attribute_second(
        'c',
        base64_encoded(encode_utf8(challenge.gs2_header)),
        'r',
        challenge.nonce,
    );
}

proof fn lemma_split_once(before: Seq<char>, c: char, after: Seq<char>)
    requires
        !before.contains(c),
    ensures
        split_once(before + seq![c] + after, c) == Some((before, after)),
{
    let whole = before + seq![c] + after;
    assert forall|j: int| 0 <= j < before.len() implies whole[j] != c by {
        assert(whole[j] == before[j]);
        assert(before.contains(before[j]));
    }
    lemma_found(whole, c, before.len() as int);
    assert(whole.subrange(0, before.len() as int) =~= before);
    assert(whole.subrange(before.len() as int + 1, whole.len() as int) =~= after);
}

/// A verifier as it is written: the mechanism, the iterations, the salt and the two
/// keys.
pub open spec fn verifier_text(
    iterations: nat,
    salt: Seq<char>,
    stored_key: Seq<char>,
    server_key: Seq<char>,
) -> Seq<char> {
    "SCRAM-SHA-256$"@ + (decimal(iterations) + seq![':'] + salt + seq!['$'] + (stored_key + seq![
        ':',
    ] + server_key))
}

/// A verifier reads as it is written: with the iterations, the salt and the keys
/// that stand in it, each where it belongs. It is refused exactly where it has no
/// iterations, or its salt is empty or no base64, or a key is not 32 bytes of
/// base64.
pub proof fn law_a_verifier_reads_as_it_is_written(
    iterations: nat,
    salt: Seq<char>,
    stored_key: Seq<char>,
    server_key: Seq<char>,
)
    requires
        iterations <= u32::MAX,
        !salt.contains('$'),
        !stored_key.contains(':'),
    ensures
        ({
            let read = verifier_in(verifier_text(iterations, salt, stored_key, server_key));
            let salted = base64_decoded(salt);
            let stored = base64_decoded(stored_key);
            let server = base64_decoded(server_key);
            &&& read is Ok <==> iterations > 0 && salted is Some && salted->0.len() > 0
                && stored is Some && stored->0.len() == 32 && server is Some && server->0.len()
                == 32
            &&& read matches Ok(verifier) ==> {
                &&& verifier.iterations == iterations
                &&& verifier.salt == salted->0
                &&& verifier.stored_key == stored->0
                &&& verifier.server_key == server->0
            }
            &&& iterations == 0 ==> read == Err::<VerifierView, VerifierFailure>(
                VerifierFailure::Iterations,
            )
        }),
{
    let number_text = decimal(iterations);
    let parameters = number_text + seq![':'] + salt;
    let keys = stored_key + seq![':'] + server_key;
    let body = parameters + seq!['$'] + keys;
    let text = verifier_text(iterations, salt, stored_key, server_key);
    law_a_number_reads_as_it_was_written(iterations, iterations);
    let prefix = "SCRAM-SHA-256$"@;
    assert(text.subrange(0, prefix.len() as int) =~= prefix);
    assert(text.subrange(prefix.len() as int, text.len() as int) =~= body);
    assert(!number_text.contains(':')) by {
        if number_text.contains(':') {
            let j = choose|j: int| 0 <= j < number_text.len() && number_text[j] == ':';
            assert('0' <= number_text[j] <= '9');
        }
    }
    assert(!parameters.contains('$')) by {
        if parameters.contains('$') {
            let j = choose|j: int| 0 <= j < parameters.len() && parameters[j] == '$';
            if j < number_text.len() {
                assert('0' <= number_text[j] <= '9');
            } else if j > number_text.len() {
                assert(salt[j - number_text.len() - 1] == '$');
                assert(salt.contains('$'));
            }
        }
    }
    lemma_split_once(parameters, '$', keys);
    lemma_split_once(number_text, ':', salt);
    lemma_split_once(stored_key, ':', server_key);
}

/// A client that echoes another header than the one it sent is refused, whatever
/// the proof: nobody between the two can have changed it.
pub proof fn law_an_altered_header_is_refused(
    exchange: ExchangeView,
    challenge: ChallengeView,
    header: Seq<char>,
    proof: Seq<char>,
)
    requires
        base64_encoded(encode_utf8(header)) != base64_encoded(encode_utf8(challenge.gs2_header)),
        !base64_encoded(encode_utf8(header)).contains(','),
        !proof.contains(','),
    ensures
        exchange.answered(
            challenge,
            encode_utf8(
                client_final_text(ChallengeView { gs2_header: header, ..challenge }, proof),
            ),
        ) == Err::<Seq<char>, ScramFailure>(ScramFailure::ChannelBinding),
{
    let sent = ChallengeView { gs2_header: header, ..challenge };
    let text = client_final_text(sent, proof);
    let bare = client_final_bare(sent);
    encode_utf8_valid_utf8(text);
    encode_utf8_decode_utf8(text);
    lemma_proof_found(bare, proof);
    let at = rfind(text, seq![',', 'p', '=']);
    assert(text.subrange(0, at) =~= bare);
    lemma_attribute_first(
        'c',
        base64_encoded(encode_utf8(header)),
        seq![','] + (seq!['r', '='] + challenge.nonce),
    );
}

/// A challenge goes back to the client with the nonce that the client sent, and the
/// server's behind it, the salt and the iterations of the verifier; and it is kept
/// with the header and the rest that the client sent, which together are its
/// message.
pub proof fn law_a_challenge_answers_the_message_it_is_for(exchange: ExchangeView, message: Seq<u8>)
    requires
        exchange.first(message) is Ok,
    ensures
        ({
            let challenge = exchange.first(message)->Ok_0;
            let text = decode_utf8(message);
            &&& exchange.state is Start
            &&& challenge.gs2_header + challenge.client_first_bare == text
            &&& attribute_in(challenge.client_first_bare, 'r') is Some
            &&& challenge.nonce == attribute_in(challenge.client_first_bare, 'r')->0
                + exchange.server_nonce
            &&& challenge.server_first == "r="@ + challenge.nonce + ",s="@ + base64_encoded(
                exchange.verifier.salt,
            ) + ",i="@ + decimal(exchange.verifier.iterations as nat)
            &&& text.len() > 0 && (text[0] == 'n' || text[0] == 'y')
        }),
{
    let challenge = exchange.first(message)->Ok_0;
    let text = decode_utf8(message);
    lemma_find(text, ',');
    let flag_end = find(text, ',');
    let rest = text.subrange(flag_end + 1, text.len() as int);
    lemma_find(rest, ',');
    assert(challenge.gs2_header + challenge.client_first_bare =~= text);
    let flag = text.subrange(0, flag_end);
    assert(flag == seq!['n'] || flag == seq!['y']);
    assert(flag.len() == 1 && flag[0] == text[0]);
}

/// Only a text that names the mechanism is read as a verifier, and what is read out of
/// one can be used: it asks for at least one iteration under a salt that is not empty,
/// and holds two keys of 32 bytes.
pub proof fn law_what_is_read_as_a_verifier_can_be_used(text: Seq<char>)
    ensures
        text.len() < 14 || text.subrange(0, 14) != "SCRAM-SHA-256$"@ ==> verifier_in(text) == Err::<
            VerifierView,
            VerifierFailure,
        >(VerifierFailure::Mechanism),
        verifier_in(text) matches Ok(verifier) ==> {
            &&& text.len() >= 14
            &&& text.subrange(0, 14) == "SCRAM-SHA-256$"@
            &&& verifier.iterations > 0
            &&& verifier.salt.len() > 0
            &&& verifier.stored_key.len() == 32
            &&& verifier.server_key.len() == 32
        },
{
    reveal_strlit("SCRAM-SHA-256$");
}

} // verus!
