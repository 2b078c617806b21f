//! The client's side of one SCRAM exchange with a server.
use postgres_protocol::authentication::sasl::{ChannelBinding, ScramSha256};
use vstd::prelude::*;
use vstd::utf8::encode_utf8;

verus! {

/// `postgres_protocol::authentication::sasl::ScramSha256`: the client's side of
/// one exchange.
#[verifier::external_type_specification]
#[verifier::external_body]
pub struct ExScramSha256(ScramSha256);

/// How far the client's side of an exchange has come.
pub enum Stage {
    /// Its first message is made.
    Fresh,
    /// It has answered that challenge.
    Challenged(Seq<u8>),
    /// It takes nothing more.
    Spent,
}

/// The client's side of an exchange: the secret that it proves to know, its
/// first message, and how far it has come.
pub struct ClientView {
    pub secret: Seq<u8>,
    pub first: Seq<u8>,
    pub stage: Stage,
}

/// What `ScramSha256` answers to a challenge, by the secret, its first message,
/// which holds its nonce, and the challenge; or how it complains.
pub uninterp spec fn scram_reply(secret: Seq<u8>, first: Seq<u8>, challenge: Seq<u8>) -> Result<
    Seq<u8>,
    Seq<char>,
>;

/// Whether `ScramSha256` takes the server's last word for a proof, by the
/// secret, its first message, the challenge that it answered and that word; or
/// how it complains.
pub uninterp spec fn scram_proof(
    secret: Seq<u8>,
    first: Seq<u8>,
    challenge: Seq<u8>,
    last: Seq<u8>,
) -> Result<(), Seq<char>>;

/// What came of a challenge, with texts as sequences.
pub open spec fn outcome_view(outcome: Result<Vec<u8>, String>) -> Result<Seq<u8>, Seq<char>> {
    match outcome {
        Ok(message) => Ok(message@),
        Err(complaint) => Err(complaint@),
    }
}

/// What came of the server's last word, with the complaint as a sequence.
pub open spec fn proof_view(outcome: Result<(), String>) -> Result<(), Seq<char>> {
    match outcome {
        Ok(()) => Ok(()),
        Err(complaint) => Err(complaint@),
    }
}

/// Whether bytes are a client's first message: that it binds no channel and
/// names no user, and a nonce of 24 printable characters other than a comma.
pub open spec fn is_first(first: Seq<u8>) -> bool {
    &&& first.len() == 32
    &&& first.subrange(0, 8) == encode_utf8("n,,n=,r="@)
    &&& forall|k: int|
        8 <= k < 32 ==> 0x21 <= #[trigger] first[k] <= 0x7e && first[k] != 0x2c
}

impl ClientView {
    /// The same, at another stage.
    pub open spec fn at(self, stage: Stage) -> ClientView {
        ClientView { stage, ..self }
    }

    /// What a challenge is answered: only the first one is.
    pub open spec fn reply(self, challenge: Seq<u8>) -> Result<Seq<u8>, Seq<char>> {
        if self.stage is Fresh {
            scram_reply(self.secret, self.first, challenge)
        } else {
            Err("invalid SCRAM state"@)
        }
    }

    /// Where a challenge leaves the exchange.
    pub open spec fn challenged(self, challenge: Seq<u8>) -> ClientView {
        if self.reply(challenge) is Ok {
            self.at(Stage::Challenged(challenge))
        } else {
            self.at(Stage::Spent)
        }
    }

    /// Whether the server proves itself with its last word: only after a
    /// challenge that was answered.
    pub open spec fn proved(self, last: Seq<u8>) -> Result<(), Seq<char>> {
        match self.stage {
            Stage::Challenged(challenge) => scram_proof(self.secret, self.first, challenge, last),
            _ => Err("invalid SCRAM state"@),
        }
    }
}

/// The client's side of an exchange. None is made but by [`begin_scram`], so
/// that what it stands for is what it does.
pub struct ClientExchange {
    scram: ScramSha256,
    model: Ghost<ClientView>,
}

impl View for ClientExchange {
    type V = ClientView;

    closed spec fn view(&self) -> ClientView {
        self.model@
    }
}

/// `ScramSha256::new` without channel binding, and its first `message`: the
/// exchange is over that password and that message, whose nonce is random.
#[verifier::external_body]
pub(crate) fn begin_scram(password: &[u8]) -> (begun: (ClientExchange, Vec<u8>))
    ensures
        begun.0@.secret == password@,
        begun.0@.first == begun.1@,
        begun.0@.stage is Fresh,
        is_first(begun.1@),
{
    let scram = ScramSha256::new(password, ChannelBinding::unsupported());
    let message = scram.message().to_vec();
    (ClientExchange { scram, model: Ghost(arbitrary()) }, message)
}

/// `ScramSha256::update`, and the `message` to send where it succeeds. What a
/// fresh exchange answers is named; any other complains of its state. A
/// challenge that is not answered ends the exchange.
#[verifier::external_body]
pub(crate) fn continue_scram(exchange: &mut ClientExchange, data: &[u8]) -> (message: Result<
    Vec<u8>,
    String,
>)
    ensures
        old(exchange)@.stage is Fresh ==> outcome_view(message) == scram_reply(
            old(exchange)@.secret,
            old(exchange)@.first,
            data@,
        ),
        outcome_view(message) == old(exchange)@.reply(data@),
        final(exchange)@ == old(exchange)@.challenged(data@),
{
    match exchange.scram.update(data) {
        Ok(()) => Ok(exchange.scram.message().to_vec()),
        Err(error) => Err(error.to_string()),
    }
}

/// `ScramSha256::finish`. Whether the server has proved itself to an exchange
/// that answered a challenge is named; any other complains of its state. Either
/// way the exchange ends.
#[verifier::external_body]
pub(crate) fn finish_scram(exchange: &mut ClientExchange, data: &[u8]) -> (proved: Result<
    (),
    String,
>)
    ensures
        old(exchange)@.stage matches Stage::Challenged(challenge) ==> proof_view(proved)
            == scram_proof(old(exchange)@.secret, old(exchange)@.first, challenge, data@),
        proof_view(proved) == old(exchange)@.proved(data@),
        final(exchange)@ == old(exchange)@.at(Stage::Spent),
{
    exchange.scram.finish(data).map_err(|error| error.to_string())
}

/// An exchange goes one way. It answers one challenge and no second, and takes a
/// proof only of the challenge that it answered: an exchange that answered none
/// takes no server at its word.
pub proof fn law_an_exchange_goes_one_way(
    secret: Seq<u8>,
    first: Seq<u8>,
    challenge: Seq<u8>,
    another: Seq<u8>,
    last: Seq<u8>,
)
    ensures
        ({
            let fresh = ClientView { secret, first, stage: Stage::Fresh };
            let after = fresh.challenged(challenge);
            &&& fresh.reply(challenge) == scram_reply(secret, first, challenge)
            &&& fresh.proved(last) is Err
            &&& after.secret == secret && after.first == first
            &&& after.reply(another) is Err
            &&& after.proved(last) is Ok <==> scram_reply(secret, first, challenge) is Ok
                && scram_proof(secret, first, challenge, last) is Ok
            &&& after.challenged(another).proved(last) is Err
        }),
{
}

} // verus!
